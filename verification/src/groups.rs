//! Grouped counts over a typed index.

use crate::item::Item;
use crate::json::{Json, JsonV};
use crate::model::Model;
use crate::order::{OrdMap, ascending, lemma_ascending_distinct, listing_of};
use crate::projection::ProjectionData;
use crate::scan::{ValueMap, field_at, find_field, find_typed_index, typed_named, value_map_v};
use crate::text::opt_text;
use crate::typed::{FilterV, QueryFilter, TimeBucket, entity_meets_all, field_value, filters_v, matches_filters_on_entity, truncate_timestamp, truncated, typed_value_for_field};
use crate::types::{EngineError, EngineResult, ErrorV, IndexField, IndexType, ItemId, TypedV, TypedValue, index_fields_v, outcome};
use vstd::prelude::*;

verus! {

/// A field to group by, whole or by hour or day.
pub struct GroupBy {
    pub field: String,
    pub time_bucket: Option<TimeBucket>,
}

pub ghost struct GroupByV {
    pub field: Seq<char>,
    pub time_bucket: Option<TimeBucket>,
}

impl GroupBy {
    pub open spec fn view(&self) -> GroupByV {
        GroupByV { field: self.field@, time_bucket: self.time_bucket }
    }
}

pub open spec fn group_by_v(v: Seq<GroupBy>) -> Seq<GroupByV> {
    v.map_values(|g: GroupBy| g@)
}

pub struct GroupedAggregateRequest {
    pub index: Option<String>,
    pub filters: Vec<QueryFilter>,
    pub group_by: Vec<GroupBy>,
    pub max_groups: u32,
}

pub struct AggregateGroup {
    pub key: ValueMap,
    pub count: u64,
}

/// Every field to group by is one of the index, and only instants are grouped by time.
pub open spec fn groups_checked(
    fields: Seq<(Seq<char>, IndexType)>,
    gs: Seq<GroupByV>,
) -> Result<(), ErrorV>
    decreases gs.len(),
{
    if gs.len() == 0 {
        Ok(())
    } else {
        let at = field_at(fields, gs[0].field, 0);
        if at >= fields.len() {
            Err(ErrorV::Invalid("unindexed-field"@))
        } else if gs[0].time_bucket is Some && !(fields[at].1 is Datetime) {
            Err(ErrorV::Invalid("unsupported time bucket"@))
        } else {
            groups_checked(fields, gs.drop_first())
        }
    }
}

/// A value as it is grouped.
pub open spec fn grouped_value(b: Option<TimeBucket>, v: TypedV) -> Result<TypedV, ErrorV> {
    match (b, v) {
        (None, _) => Ok(v),
        (Some(x), TypedV::DateTime(t)) => Ok(TypedV::DateTime(truncated(t, x))),
        _ => Err(ErrorV::Invalid("unsupported time bucket"@)),
    }
}

/// The group of a document: none where it lacks one of the values.
pub open spec fn group_key(
    fields: Seq<(Seq<char>, IndexType)>,
    gs: Seq<GroupByV>,
    doc: JsonV,
) -> Result<Option<Map<Seq<char>, TypedV>>, ErrorV>
    decreases gs.len(),
{
    if gs.len() == 0 {
        Ok(Some(Map::empty()))
    } else {
        let g = gs.last();
        let at = field_at(fields, g.field, 0);
        match group_key(fields, gs.drop_last(), doc) {
            Err(e) => Err(e),
            Ok(None) => Ok(None),
            Ok(Some(m)) => if at >= fields.len() {
                Err(ErrorV::Invalid("unindexed-field"@))
            } else {
                match field_value(doc, g.field, fields[at].1) {
                    Err(e) => Err(e),
                    Ok(None) => Ok(None),
                    Ok(Some(v)) => match grouped_value(g.time_bucket, v) {
                        Err(e) => Err(e),
                        Ok(x) => Ok(Some(m.insert(g.field, x))),
                    },
                }
            },
        }
    }
}

proof fn lemma_group_stops(
    fields: Seq<(Seq<char>, IndexType)>,
    gs: Seq<GroupByV>,
    doc: JsonV,
    n: int,
)
    requires
        0 <= n <= gs.len(),
        group_key(fields, gs.take(n), doc) is Err || group_key(fields, gs.take(n), doc) == Ok::<
            Option<Map<Seq<char>, TypedV>>,
            ErrorV,
        >(None),
    ensures
        group_key(fields, gs, doc) == group_key(fields, gs.take(n), doc),
    decreases gs.len() - n,
{
    if n == gs.len() {
        assert(gs.take(n) =~= gs);
    } else {
        assert(gs.take(n + 1).drop_last() =~= gs.take(n));
        lemma_group_stops(fields, gs, doc, n + 1);
    }
}

/// The groups of the items that meet the filters and have one, by identifier.
pub open spec fn group_keys_of(
    items: Map<ItemId, Item>,
    fields: Seq<(Seq<char>, IndexType)>,
    gs: Seq<GroupByV>,
    fs: Seq<FilterV>,
    ids: Seq<ItemId>,
) -> Result<Seq<Map<Seq<char>, TypedV>>, ErrorV>
    decreases ids.len(),
{
    if ids.len() == 0 {
        Ok(Seq::empty())
    } else {
        match group_keys_of(items, fields, gs, fs, ids.drop_last()) {
            Err(e) => Err(e),
            Ok(keys) => match items[ids.last()].entity {
                None => Ok(keys),
                Some(doc) => match entity_meets_all(doc.document, fs) {
                    Err(e) => Err(e),
                    Ok(false) => Ok(keys),
                    Ok(true) => match group_key(fields, gs, doc.document) {
                        Err(e) => Err(e),
                        Ok(None) => Ok(keys),
                        Ok(Some(k)) => Ok(keys.push(k)),
                    },
                },
            },
        }
    }
}

proof fn lemma_group_keys_stop(
    items: Map<ItemId, Item>,
    fields: Seq<(Seq<char>, IndexType)>,
    gs: Seq<GroupByV>,
    fs: Seq<FilterV>,
    ids: Seq<ItemId>,
    n: int,
)
    requires
        0 <= n <= ids.len(),
        group_keys_of(items, fields, gs, fs, ids.take(n)) is Err,
    ensures
        group_keys_of(items, fields, gs, fs, ids) == group_keys_of(
            items,
            fields,
            gs,
            fs,
            ids.take(n),
        ),
    decreases ids.len() - n,
{
    if n == ids.len() {
        assert(ids.take(n) =~= ids);
    } else {
        assert(ids.take(n + 1).drop_last() =~= ids.take(n));
        lemma_group_keys_stop(items, fields, gs, fs, ids, n + 1);
    }
}

pub open spec fn value_maps_v(v: Seq<ValueMap>) -> Seq<Map<Seq<char>, TypedV>> {
    v.map_values(|m: ValueMap| value_map_v(m))
}

/// The groups that a request is about.
pub open spec fn grouped(m: Model, q: GroupedAggregateRequest) -> Result<
    Seq<Map<Seq<char>, TypedV>>,
    ErrorV,
> {
    if q.group_by@.len() == 0 {
        Err(ErrorV::Invalid("group-by required"@))
    } else {
        match typed_named(m.typed_index_specs, opt_text(q.index)) {
            Err(e) => Err(e),
            Ok(at) => {
                let fields = m.typed_index_specs[at].fields;
                match groups_checked(fields, group_by_v(q.group_by@)) {
                    Err(e) => Err(e),
                    Ok(_) => group_keys_of(
                        m.items,
                        fields,
                        group_by_v(q.group_by@),
                        filters_v(q.filters@),
                        listing_of::<u64>(m.items.dom()),
                    ),
                }
            },
        }
    }
}

fn check_groups(fields: &Vec<IndexField>, group_by: &Vec<GroupBy>) -> (r: EngineResult<()>)
    ensures
        outcome(r) == groups_checked(index_fields_v(fields@), group_by_v(group_by@)),
{
    let ghost all = index_fields_v(fields@);
    let ghost gs = group_by_v(group_by@);
    let mut i: usize = 0;
    assert(gs.skip(0) =~= gs);
    while i < group_by.len()
        invariant
            i <= group_by@.len(),
            all == index_fields_v(fields@),
            gs == group_by_v(group_by@),
            groups_checked(all, gs) == groups_checked(all, gs.skip(i as int)),
        decreases group_by@.len() - i,
    {
        proof {
            assert(gs.skip(i as int)[0] == group_by@[i as int]@);
            assert(gs.skip(i as int).drop_first() =~= gs.skip(i as int + 1));
        }
        let at = find_field(fields, group_by[i].field.as_str());
        if at >= fields.len() {
            return Err(EngineError::Invalid("unindexed-field"));
        }
        assert(all[at as int] == (fields@[at as int].field@, fields@[at as int].index_type));
        let instants = match fields[at].index_type {
            IndexType::Datetime => true,
            _ => false,
        };
        if group_by[i].time_bucket.is_some() && !instants {
            return Err(EngineError::Invalid("unsupported time bucket"));
        }
        i = i + 1;
    }
    Ok(())
}

fn group_of(fields: &Vec<IndexField>, group_by: &Vec<GroupBy>, doc: &Json) -> (r: EngineResult<
    Option<ValueMap>,
>)
    ensures
        (match r {
            Err(e) => Err(e@),
            Ok(None) => Ok(None),
            Ok(Some(m)) => Ok(Some(value_map_v(m))),
        }) == group_key(index_fields_v(fields@), group_by_v(group_by@), doc@),
{
    let ghost all = index_fields_v(fields@);
    let ghost gs = group_by_v(group_by@);
    let mut out: ValueMap = OrdMap::new();
    let mut i: usize = 0;
    assert(gs.take(0) =~= Seq::<GroupByV>::empty());
    assert(value_map_v(out) =~= Map::<Seq<char>, TypedV>::empty());
    while i < group_by.len()
        invariant
            i <= group_by@.len(),
            all == index_fields_v(fields@),
            gs == group_by_v(group_by@),
            group_key(all, gs.take(i as int), doc@) == Ok::<
                Option<Map<Seq<char>, TypedV>>,
                ErrorV,
            >(Some(value_map_v(out))),
        decreases group_by@.len() - i,
    {
        let g = &group_by[i];
        proof {
            assert(gs.take(i as int + 1).drop_last() =~= gs.take(i as int));
            assert(gs.take(i as int + 1).last() == g@);
            if group_key(all, gs.take(i as int + 1), doc@) is Err || group_key(
                all,
                gs.take(i as int + 1),
                doc@,
            ) == Ok::<Option<Map<Seq<char>, TypedV>>, ErrorV>(None) {
                lemma_group_stops(all, gs, doc@, i as int + 1);
            }
        }
        let at = find_field(fields, g.field.as_str());
        if at >= fields.len() {
            return Err(EngineError::Invalid("unindexed-field"));
        }
        assert(all[at as int] == (fields@[at as int].field@, fields@[at as int].index_type));
        let v = match typed_value_for_field(doc, g.field.as_str(), fields[at].index_type) {
            Err(e) => return Err(e),
            Ok(None) => return Ok(None),
            Ok(Some(v)) => v,
        };
        let value = match (g.time_bucket, v) {
            (None, v) => v,
            (Some(b), TypedValue::DateTime(t)) => TypedValue::DateTime(truncate_timestamp(t, b)),
            _ => return Err(EngineError::Invalid("unsupported time bucket")),
        };
        let ghost before = out;
        out.insert(g.field.clone(), value);
        assert(value_map_v(out) =~= value_map_v(before).insert(g.field@, value@));
        i = i + 1;
    }
    assert(gs.take(i as int) =~= gs);
    Ok(Some(out))
}

/// Groups by how their keys are written: where each stands among the keys first, and how often it
/// occurs.
pub open spec fn tallied_groups(
    names: Seq<Result<String, String>>,
    max_groups: nat,
) -> Result<Map<Seq<char>, (usize, u64)>, ErrorV>
    decreases names.len(),
{
    if names.len() == 0 {
        Ok(Map::empty())
    } else {
        match tallied_groups(names.drop_last(), max_groups) {
            Err(e) => Err(e),
            Ok(groups) => match names.last() {
                Err(t) => Err(ErrorV::Storage(t@)),
                Ok(name) => if groups.contains_key(name@) {
                    Ok(
                        groups.insert(
                            name@,
                            (groups[name@].0, (groups[name@].1 + 1) as u64),
                        ),
                    )
                } else if groups.dom().len() >= max_groups {
                    Err(ErrorV::Invalid("aggregate-too-large"@))
                } else {
                    Ok(groups.insert(name@, ((names.len() - 1) as usize, 1)))
                },
            },
        }
    }
}

proof fn lemma_tally_stops(names: Seq<Result<String, String>>, max_groups: nat, n: int)
    requires
        0 <= n <= names.len(),
        tallied_groups(names.take(n), max_groups) is Err,
    ensures
        tallied_groups(names, max_groups) == tallied_groups(names.take(n), max_groups),
    decreases names.len() - n,
{
    if n == names.len() {
        assert(names.take(n) =~= names);
    } else {
        assert(names.take(n + 1).drop_last() =~= names.take(n));
        lemma_tally_stops(names, max_groups, n + 1);
    }
}

pub open spec fn groups_v(v: Seq<AggregateGroup>) -> Seq<(Map<Seq<char>, TypedV>, u64)> {
    v.map_values(|g: AggregateGroup| (value_map_v(g.key), g.count))
}

/// The groups in the order of how their keys are written.
pub open spec fn groups_listed(
    keys: Seq<Map<Seq<char>, TypedV>>,
    groups: Map<Seq<char>, (usize, u64)>,
) -> Seq<(Map<Seq<char>, TypedV>, u64)> {
    listing_of::<String>(groups.dom()).map_values(
        |name: Seq<char>| (keys[groups[name].0 as int], groups[name].1),
    )
}

fn copy_values(m: &ValueMap) -> (r: ValueMap)
    ensures
        value_map_v(r) == value_map_v(*m),
{
    let n = m.len();
    let ghost keys = m.listing();
    let mut out: ValueMap = OrdMap::new();
    let mut i: usize = 0;
    while i < n
        invariant
            i <= n,
            n == keys.len(),
            n == m.values().len(),
            keys == m.listing(),
            forall|j: int|
                0 <= j < n ==> m@.contains_key(#[trigger] keys[j]) && m@[keys[j]] == m.values()[j],
            forall|j: int| 0 <= j < i ==> out@.contains_key(#[trigger] keys[j]),
            forall|k: Seq<char>| #[trigger]
                out@.contains_key(k) ==> m@.contains_key(k) && out@[k]@ == m@[k]@,
        decreases n - i,
    {
        let key = m.key_at(i).clone();
        let v = m.value_at(i).duplicate();
        assert(m@.contains_key(keys[i as int]));
        out.insert(key, v);
        i = i + 1;
    }
    proof {
        assert forall|k: Seq<char>| m@.contains_key(k) implies out@.contains_key(k) by {
            assert(keys.contains(k));
            let j = choose|j: int| 0 <= j < keys.len() && keys[j] == k;
            assert(out@.contains_key(keys[j]));
        }
        assert(value_map_v(out) =~= value_map_v(*m));
    }
    out
}

/// Counts groups by how their keys are written, up to a number of groups. Each key comes with its text,
/// or why it has none.
pub fn aggregate_groups(
    keys: &Vec<ValueMap>,
    names: &Vec<Result<String, String>>,
    max_groups: u32,
) -> (r: EngineResult<Vec<AggregateGroup>>)
    requires
        keys@.len() == names@.len(),
    ensures
        match r {
            Err(e) => tallied_groups(names@, max_groups as nat) == Err::<
                Map<Seq<char>, (usize, u64)>,
                ErrorV,
            >(e@),
            Ok(g) => tallied_groups(names@, max_groups as nat) is Ok && groups_v(g@)
                == groups_listed(
                value_maps_v(keys@),
                tallied_groups(names@, max_groups as nat)->Ok_0,
            ),
        },
{
    let mut groups: OrdMap<String, (usize, u64)> = OrdMap::new();
    let mut i: usize = 0;
    assert(names@.take(0) =~= Seq::<Result<String, String>>::empty());
    while i < names.len()
        invariant
            i <= names@.len(),
            keys@.len() == names@.len(),
            tallied_groups(names@.take(i as int), max_groups as nat) == Ok::<
                Map<Seq<char>, (usize, u64)>,
                ErrorV,
            >(groups@),
            forall|k: Seq<char>| #[trigger]
                groups@.contains_key(k) ==> groups@[k].0 < i && groups@[k].1 <= i,
        decreases names@.len() - i,
    {
        proof {
            assert(names@.take(i as int + 1).drop_last() =~= names@.take(i as int));
            assert(names@.take(i as int + 1).last() == names@[i as int]);
        }
        match &names[i] {
            Err(t) => {
                proof {
                    lemma_tally_stops(names@, max_groups as nat, i as int + 1);
                }
                return Err(EngineError::Storage(t.clone()));
            },
            Ok(name) => {
                let known = match groups.get(name) {
                    Some(g) => Some(*g),
                    None => None,
                };
                match known {
                    Some((first, count)) => {
                        groups.insert(name.clone(), (first, count + 1));
                    },
                    None => {
                        let n = groups.len();
                        proof {
                            lemma_listing_len::<(usize, u64)>(groups);
                        }
                        if n as u64 >= max_groups as u64 {
                            proof {
                                lemma_tally_stops(names@, max_groups as nat, i as int + 1);
                            }
                            return Err(EngineError::Invalid("aggregate-too-large"));
                        }
                        groups.insert(name.clone(), (i, 1));
                    },
                }
            },
        }
        i = i + 1;
    }
    assert(names@.take(i as int) =~= names@);
    let n = groups.len();
    let ghost all = groups_listed(value_maps_v(keys@), groups@);
    let mut out: Vec<AggregateGroup> = Vec::new();
    let mut k: usize = 0;
    assert(groups_v(out@) =~= all.take(0));
    while k < n
        invariant
            k <= n,
            n == groups.listing().len(),
            n == groups.values().len(),
            listing_of::<String>(groups@.dom()) == groups.listing(),
            all == groups_listed(value_maps_v(keys@), groups@),
            forall|j: int|
                0 <= j < n ==> groups@.contains_key(#[trigger] groups.listing()[j])
                    && groups@[groups.listing()[j]] == groups.values()[j],
            forall|x: Seq<char>| #[trigger]
                groups@.contains_key(x) ==> groups@[x].0 < keys@.len(),
            groups_v(out@) == all.take(k as int),
        decreases n - k,
    {
        assert(groups@.contains_key(groups.listing()[k as int]));
        let (first, count) = *groups.value_at(k);
        let ghost before = out@;
        let key = copy_values(&keys[first]);
        let g = AggregateGroup { key, count };
        out.push(g);
        proof {
            assert(value_maps_v(keys@)[first as int] == value_map_v(keys@[first as int]));
            assert(groups_v(out@) =~= groups_v(before).push((value_map_v(g.key), g.count)));
            assert(all.take(k as int + 1) =~= all.take(k as int).push(all[k as int]));
        }
        k = k + 1;
    }
    assert(all.take(k as int) =~= all);
    Ok(out)
}

proof fn lemma_listing_len<T>(m: OrdMap<String, T>)
    requires
        listing_of::<String>(m@.dom()) == m.listing(),
        ascending::<String>(m.listing()),
    ensures
        m@.dom().len() == m.listing().len(),
{
    lemma_ascending_distinct::<String>(m.listing());
    assert(m@.dom() =~= m.listing().to_set());
    m.listing().unique_seq_to_set();
}

impl ProjectionData {
    /// The groups of the items that a request is about, one for each item.
    pub fn group_keys(&self, request: &GroupedAggregateRequest) -> (r: EngineResult<Vec<ValueMap>>)
        ensures
            (match r {
                Ok(k) => Ok(value_maps_v(k@)),
                Err(e) => Err(e@),
            }) == grouped(self@, *request),
    {
        if request.group_by.len() == 0 {
            return Err(EngineError::Invalid("group-by required"));
        }
        let at = match find_typed_index(&self.typed_index_specs, &request.index) {
            Ok(at) => at,
            Err(e) => return Err(e),
        };
        let fields = &self.typed_index_specs[at].fields;
        assert(self@.typed_index_specs[at as int] == self.typed_index_specs@[at as int]@);
        match check_groups(fields, &request.group_by) {
            Ok(_) => {},
            Err(e) => return Err(e),
        }
        let ghost all = index_fields_v(fields@);
        let ghost gs = group_by_v(request.group_by@);
        let ghost fs = filters_v(request.filters@);
        let ids = self.all_ids();
        let mut out: Vec<ValueMap> = Vec::new();
        let mut i: usize = 0;
        assert(ids@.take(0) =~= Seq::<ItemId>::empty());
        assert(value_maps_v(out@) =~= Seq::<Map<Seq<char>, TypedV>>::empty());
        while i < ids.len()
            invariant
                i <= ids@.len(),
                all == index_fields_v(fields@),
                gs == group_by_v(request.group_by@),
                fs == filters_v(request.filters@),
                ids@.to_set() == self@.items.dom(),
                group_keys_of(self@.items, all, gs, fs, ids@.take(i as int)) == Ok::<
                    Seq<Map<Seq<char>, TypedV>>,
                    ErrorV,
                >(value_maps_v(out@)),
                grouped(self@, *request) == group_keys_of(self@.items, all, gs, fs, ids@),
            decreases ids@.len() - i,
        {
            let id = ids[i];
            proof {
                assert(ids@.take(i as int + 1).drop_last() =~= ids@.take(i as int));
                assert(ids@.take(i as int + 1).last() == id);
                assert(ids@.to_set().contains(id));
                if group_keys_of(self@.items, all, gs, fs, ids@.take(i as int + 1)) is Err {
                    lemma_group_keys_stop(self@.items, all, gs, fs, ids@, i as int + 1);
                }
            }
            match self.record(id) {
                None => {},
                Some(rec) => match &rec.entity_document {
                    None => {},
                    Some(e) => match matches_filters_on_entity(&e.document, &request.filters) {
                        Err(x) => return Err(x),
                        Ok(false) => {},
                        Ok(true) => match group_of(fields, &request.group_by, &e.document) {
                            Err(x) => return Err(x),
                            Ok(None) => {},
                            Ok(Some(k)) => {
                                let ghost before = out@;
                                out.push(k);
                                assert(value_maps_v(out@) =~= value_maps_v(before).push(
                                    value_map_v(k),
                                ));
                            },
                        },
                    },
                },
            }
            i = i + 1;
        }
        assert(ids@.take(i as int) =~= ids@);
        Ok(out)
    }

    /// Counts the items that a request is about by group. `names` tells how the key of each of their
    /// groups is written, or why it is not.
    pub fn grouped_aggregate(
        &self,
        request: &GroupedAggregateRequest,
        names: &Vec<Result<String, String>>,
    ) -> (r: EngineResult<Vec<AggregateGroup>>)
        requires
            grouped(self@, *request) is Ok ==> grouped(self@, *request)->Ok_0.len() == names@.len(),
        ensures
            (match r {
                Ok(g) => Ok(groups_v(g@)),
                Err(e) => Err(e@),
            }) == aggregated_groups(self@, *request, names@),
    {
        let keys = match self.group_keys(request) {
            Ok(k) => k,
            Err(e) => return Err(e),
        };
        assert(value_maps_v(keys@).len() == keys@.len());
        aggregate_groups(&keys, names, request.max_groups)
    }
}

/// What counting by group comes to.
pub open spec fn aggregated_groups(
    m: Model,
    q: GroupedAggregateRequest,
    names: Seq<Result<String, String>>,
) -> Result<Seq<(Map<Seq<char>, TypedV>, u64)>, ErrorV> {
    match grouped(m, q) {
        Err(e) => Err(e),
        Ok(keys) => match tallied_groups(names, q.max_groups as nat) {
            Err(e) => Err(e),
            Ok(groups) => Ok(groups_listed(keys, groups)),
        },
    }
}

/// A group is counted once for each item in it, and no more groups are counted than asked for.
pub proof fn law_groups_count_every_item(names: Seq<Result<String, String>>, max_groups: nat)
    requires
        names.len() <= u64::MAX,
        tallied_groups(names, max_groups) is Ok,
    ensures
        tallied_groups(names, max_groups)->Ok_0.dom().finite(),
        tallied_groups(names, max_groups)->Ok_0.dom().len() <= max_groups,
        forall|t: Seq<char>| #[trigger]
            tallied_groups(names, max_groups)->Ok_0.contains_key(t) <==> occurrences(names, t) > 0,
        forall|t: Seq<char>| #[trigger]
            tallied_groups(names, max_groups)->Ok_0.contains_key(t) ==> tallied_groups(
                names,
                max_groups,
            )->Ok_0[t].1 == occurrences(names, t),
        forall|t: Seq<char>| occurrences(names, t) <= names.len(),
    decreases names.len(),
{
    if names.len() > 0 {
        let less = names.drop_last();
        law_groups_count_every_item(less, max_groups);
        let before = tallied_groups(less, max_groups)->Ok_0;
        let after = tallied_groups(names, max_groups)->Ok_0;
        let name = names.last()->Ok_0@;
        assert forall|t: Seq<char>| #[trigger] after.contains_key(t) <==> occurrences(names, t)
            > 0 by {
            assert(before.contains_key(t) <==> occurrences(less, t) > 0);
        }
        assert forall|t: Seq<char>| #[trigger] after.contains_key(t) implies after[t].1
            == occurrences(names, t) by {
            assert(before.contains_key(t) <==> occurrences(less, t) > 0);
            assert(occurrences(less, t) <= less.len());
        }
        assert forall|t: Seq<char>| occurrences(names, t) <= names.len() by {
            assert(occurrences(less, t) <= less.len());
        }
        if before.contains_key(name) {
            assert(after.dom() =~= before.dom());
        } else {
            assert(after.dom() =~= before.dom().insert(name));
        }
    }
}

/// How often a key is written so.
pub open spec fn occurrences(names: Seq<Result<String, String>>, t: Seq<char>) -> nat
    decreases names.len(),
{
    if names.len() == 0 {
        0
    } else {
        occurrences(names.drop_last(), t) + (if names.last() is Ok && names.last()->Ok_0@ == t {
            1nat
        } else {
            0nat
        })
    }
}

} // verus!
