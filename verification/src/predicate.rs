//! Conditions on items that a mutation depends on.

use crate::item::{Item, ItemRecord, client_key};
use crate::json::{Json, JsonV, pointed, pointer_tokens, same_json, tokens_of};
use crate::order::{Standing, bytes_standing};
use crate::shared::{bytes_of, bytes_slice};
use crate::text::{chars_of, contains_text, opt_text, same_opt_text, same_text, texts};
use crate::types::{Entity, EntityV, FieldMap, ItemState, Metadata, UtcTimestamp, field_bytes, metadata_of, opt_doc, ts_le, ts_lt};
use bytes::Bytes;
use std::sync::Arc;
use vstd::prelude::*;

verus! {

#[derive(Clone, Copy, PartialEq, Eq, Structural, Debug)]
pub enum TimestampComparison {
    Equal,
    Before,
    BeforeOrEqual,
    After,
    AfterOrEqual,
}

pub open spec fn ts_compares(c: TimestampComparison, a: UtcTimestamp, b: UtcTimestamp) -> bool {
    match c {
        TimestampComparison::Equal => a == b,
        TimestampComparison::Before => ts_lt(a, b),
        TimestampComparison::BeforeOrEqual => ts_le(a, b),
        TimestampComparison::After => ts_lt(b, a),
        TimestampComparison::AfterOrEqual => ts_le(b, a),
    }
}

/// What a place in the document must hold.
pub enum EntityPredicateValue {
    Missing,
    Value(Json),
}

/// A condition on an item.
#[allow(inconsistent_fields)]
pub enum ItemPredicate {
    Any(Vec<ItemPredicate>),
    All(Vec<ItemPredicate>),
    Not(Box<ItemPredicate>),
    StateIn(Vec<ItemState>),
    AttemptCountEq(u32),
    LeaseActive(bool),
    NotBefore { comparison: TimestampComparison, value: UtcTimestamp },
    ClientItemKeyEq(String),
    GroupKeyEq(Option<String>),
    FieldEq { name: String, value: Option<Bytes> },
    MetadataEq { name: String, value: Option<Json> },
    EntityEq { pointer: String, value: EntityPredicateValue },
    GateKeyPresent(String),
    GateKeyAbsent(String),
}

/// The item is leased, and its lease has not run out at that time.
pub open spec fn lease_active(i: Item, at: UtcTimestamp) -> bool {
    i.state is Leased && i.lease_expires_at is Some && ts_lt(at, i.lease_expires_at->Some_0)
}

/// The value that a pointer leads to in a document, if the pointer is well formed.
pub open spec fn entity_at(entity: Option<EntityV>, tokens: Seq<Seq<char>>) -> Option<JsonV> {
    match entity {
        Some(e) => pointed(e.document, tokens),
        None => None,
    }
}

/// The condition holds of the item at that time.
pub open spec fn holds(p: ItemPredicate, i: Item, at: UtcTimestamp) -> bool
    decreases p,
{
    match p {
        ItemPredicate::Any(ps) => exists|k: int|
            0 <= k < ps@.len() && holds(#[trigger] ps@[k], i, at),
        ItemPredicate::All(ps) => forall|k: int|
            0 <= k < ps@.len() ==> holds(#[trigger] ps@[k], i, at),
        ItemPredicate::Not(q) => !holds(*q, i, at),
        ItemPredicate::StateIn(states) => states@.contains(i.state),
        ItemPredicate::AttemptCountEq(n) => i.attempt_count == n,
        ItemPredicate::LeaseActive(expected) => lease_active(i, at) == expected,
        ItemPredicate::NotBefore { comparison, value } => i.not_before is Some && ts_compares(
            comparison,
            i.not_before->Some_0,
            value,
        ),
        ItemPredicate::ClientItemKeyEq(key) => client_key(i) == key@,
        ItemPredicate::GroupKeyEq(group) => i.group_key == opt_text(group),
        ItemPredicate::FieldEq { name, value } => match value {
            Some(v) => i.fields.contains_key(name@) && i.fields[name@] == bytes_of(v),
            None => !i.fields.contains_key(name@),
        },
        ItemPredicate::MetadataEq { name, value } => match value {
            Some(v) => i.metadata.contains_key(name@) && same_json(i.metadata[name@], v@),
            None => !i.metadata.contains_key(name@),
        },
        ItemPredicate::EntityEq { pointer, value } => match tokens_of(pointer@) {
            None => false,
            Some(tokens) => match value {
                EntityPredicateValue::Missing => entity_at(i.entity, tokens) is None,
                EntityPredicateValue::Value(v) => match entity_at(i.entity, tokens) {
                    Some(a) => same_json(a, v@),
                    None => false,
                },
            },
        },
        ItemPredicate::GateKeyPresent(key) => i.gate_keys.contains(key@),
        ItemPredicate::GateKeyAbsent(key) => !i.gate_keys.contains(key@),
    }
}

/// Every condition holds.
pub open spec fn all_hold(ps: Seq<ItemPredicate>, i: Item, at: UtcTimestamp) -> bool {
    forall|k: int| 0 <= k < ps.len() ==> holds(#[trigger] ps[k], i, at)
}

fn holds_state(states: &Vec<ItemState>, state: ItemState) -> (r: bool)
    ensures
        r == states@.contains(state),
{
    let mut i: usize = 0;
    while i < states.len()
        invariant
            i <= states@.len(),
            forall|j: int| 0 <= j < i ==> states@[j] != state,
        decreases states@.len() - i,
    {
        if states[i] == state {
            return true;
        }
        i = i + 1;
    }
    false
}

fn same_bytes(a: &Bytes, b: &Bytes) -> (r: bool)
    ensures
        r == (bytes_of(*a) == bytes_of(*b)),
{
    match bytes_standing(bytes_slice(a), bytes_slice(b)) {
        Standing::Same => true,
        _ => false,
    }
}

/// Whether a lease is live.
pub fn is_lease_active(record: &ItemRecord, at: UtcTimestamp) -> (r: bool)
    ensures
        r == lease_active(record@, at),
{
    match record.state {
        ItemState::Leased => match record.lease_expires_at {
            Some(e) => at.before(&e),
            None => false,
        },
        _ => false,
    }
}

fn compare_timestamps(c: TimestampComparison, a: UtcTimestamp, b: UtcTimestamp) -> (r: bool)
    ensures
        r == ts_compares(c, a, b),
{
    match c {
        TimestampComparison::Equal => a == b,
        TimestampComparison::Before => a.before(&b),
        TimestampComparison::BeforeOrEqual => a.at_most(&b),
        TimestampComparison::After => b.before(&a),
        TimestampComparison::AfterOrEqual => b.at_most(&a),
    }
}

/// Whether a place in the document holds what it must.
fn entity_matches(
    entity: &Option<Arc<Entity>>,
    pointer: &str,
    value: &EntityPredicateValue,
) -> (r: bool)
    ensures
        r == (match tokens_of(pointer@) {
            None => false,
            Some(tokens) => match value {
                EntityPredicateValue::Missing => entity_at(opt_doc(*entity), tokens) is None,
                EntityPredicateValue::Value(v) => match entity_at(opt_doc(*entity), tokens) {
                    Some(a) => same_json(a, v@),
                    None => false,
                },
            },
        }),
{
    let tokens = match pointer_tokens(pointer) {
        Ok(t) => t,
        Err(_) => return false,
    };
    assert(texts(tokens@).skip(0) =~= texts(tokens@));
    let actual = match entity {
        Some(e) => e.document.follow(&tokens, 0),
        None => None,
    };
    match (value, actual) {
        (EntityPredicateValue::Missing, None) => true,
        (EntityPredicateValue::Missing, Some(_)) => false,
        (EntityPredicateValue::Value(_), None) => false,
        (EntityPredicateValue::Value(v), Some(a)) => a.same(v),
    }
}

/// Whether a condition holds of an item.
pub fn mutation_predicate_matches(
    record: &ItemRecord,
    predicate: &ItemPredicate,
    evaluated_at: UtcTimestamp,
) -> (r: bool)
    ensures
        r == holds(*predicate, record@, evaluated_at),
    decreases predicate,
{
    match predicate {
        ItemPredicate::Any(ps) => any_matches(record, ps, evaluated_at),
        ItemPredicate::All(ps) => predicates_match(record, ps, evaluated_at),
        ItemPredicate::Not(q) => !mutation_predicate_matches(record, q, evaluated_at),
        ItemPredicate::StateIn(states) => holds_state(states, record.state),
        ItemPredicate::AttemptCountEq(n) => record.attempt_count == *n,
        ItemPredicate::LeaseActive(expected) => is_lease_active(record, evaluated_at) == *expected,
        ItemPredicate::NotBefore { comparison, value } => match record.not_before {
            Some(t) => compare_timestamps(*comparison, t, *value),
            None => false,
        },
        ItemPredicate::ClientItemKeyEq(key) => same_text(
            record.client_item_key().as_str(),
            key.as_str(),
        ),
        ItemPredicate::GroupKeyEq(group) => same_opt_text(&record.group_key, group),
        ItemPredicate::FieldEq { name, value } => match (record.fields.get(name), value) {
            (Some(a), Some(b)) => same_bytes(a, b),
            (None, None) => true,
            _ => false,
        },
        ItemPredicate::MetadataEq { name, value } => match (record.metadata.get(name), value) {
            (Some(a), Some(b)) => a.same(b),
            (None, None) => true,
            _ => false,
        },
        ItemPredicate::EntityEq { pointer, value } => entity_matches(
            &record.entity_document,
            pointer.as_str(),
            value,
        ),
        ItemPredicate::GateKeyPresent(key) => contains_text(&record.gate_keys, key.as_str()),
        ItemPredicate::GateKeyAbsent(key) => !contains_text(&record.gate_keys, key.as_str()),
    }
}

/// Whether some condition holds of an item.
fn any_matches(record: &ItemRecord, predicates: &Vec<ItemPredicate>, evaluated_at: UtcTimestamp) -> (r:
    bool)
    ensures
        r == exists|k: int|
            0 <= k < predicates@.len() && holds(#[trigger] predicates@[k], record@, evaluated_at),
    decreases predicates,
{
    let mut i: usize = 0;
    while i < predicates.len()
        invariant
            i <= predicates@.len(),
            forall|k: int| 0 <= k < i ==> !holds(#[trigger] predicates@[k], record@, evaluated_at),
        decreases predicates@.len() - i,
    {
        assert(decreases_to!(predicates => predicates@[i as int]));
        if mutation_predicate_matches(record, &predicates[i], evaluated_at) {
            assert(holds(predicates@[i as int], record@, evaluated_at));
            return true;
        }
        i = i + 1;
    }
    false
}

/// Whether every condition holds of an item.
pub fn predicates_match(
    record: &ItemRecord,
    predicates: &Vec<ItemPredicate>,
    evaluated_at: UtcTimestamp,
) -> (r: bool)
    ensures
        r == all_hold(predicates@, record@, evaluated_at),
    decreases predicates,
{
    let mut i: usize = 0;
    while i < predicates.len()
        invariant
            i <= predicates@.len(),
            forall|k: int| 0 <= k < i ==> holds(#[trigger] predicates@[k], record@, evaluated_at),
        decreases predicates@.len() - i,
    {
        assert(decreases_to!(predicates => predicates@[i as int]));
        if !mutation_predicate_matches(record, &predicates[i], evaluated_at) {
            assert(!holds(predicates@[i as int], record@, evaluated_at));
            return false;
        }
        i = i + 1;
    }
    true
}

/// Whether two lists of texts are the same.
pub fn same_texts(a: &Vec<String>, b: &Vec<String>) -> (r: bool)
    ensures
        r == (texts(a@) == texts(b@)),
{
    if a.len() != b.len() {
        assert(texts(a@).len() != texts(b@).len());
        return false;
    }
    let mut i: usize = 0;
    while i < a.len()
        invariant
            i <= a@.len(),
            a@.len() == b@.len(),
            forall|j: int| 0 <= j < i ==> (#[trigger] a@[j])@ == b@[j]@,
        decreases a@.len() - i,
    {
        if !same_text(a[i].as_str(), b[i].as_str()) {
            assert(texts(a@)[i as int] != texts(b@)[i as int]);
            return false;
        }
        i = i + 1;
    }
    assert(texts(a@) =~= texts(b@));
    true
}

/// Whether one set of fields holds every field of another with the same bytes.
fn covers_fields(a: &FieldMap, b: &FieldMap) -> (r: bool)
    ensures
        r == forall|k: Seq<char>| #[trigger]
            field_bytes(*b).contains_key(k) ==> field_bytes(*a).contains_key(k) && field_bytes(*a)[k]
                == field_bytes(*b)[k],
{
    let n = b.len();
    let ghost keys = b.listing();
    let mut i: usize = 0;
    while i < n
        invariant
            i <= n,
            n == keys.len(),
            n == b.values().len(),
            keys == b.listing(),
            forall|j: int|
                0 <= j < n ==> b@.contains_key(#[trigger] keys[j]) && b@[keys[j]] == b.values()[j],
            forall|j: int|
                0 <= j < i ==> a@.contains_key(#[trigger] keys[j]) && bytes_of(a@[keys[j]])
                    == bytes_of(b@[keys[j]]),
        decreases n - i,
    {
        let same = match a.get(b.key_at(i)) {
            Some(v) => same_bytes(v, b.value_at(i)),
            None => false,
        };
        if !same {
            assert(b@.contains_key(keys[i as int]));
            assert(field_bytes(*b).contains_key(keys[i as int]));
            return false;
        }
        i = i + 1;
    }
    assert forall|k: Seq<char>| #[trigger] field_bytes(*b).contains_key(k) implies field_bytes(
        *a,
    ).contains_key(k) && field_bytes(*a)[k] == field_bytes(*b)[k] by {
        assert(keys.contains(k));
        let j = choose|j: int| 0 <= j < keys.len() && keys[j] == k;
        assert(a@.contains_key(keys[j]));
    }
    true
}

/// Whether two sets of fields are the same.
pub fn same_fields(a: &FieldMap, b: &FieldMap) -> (r: bool)
    ensures
        r == (field_bytes(*a) == field_bytes(*b)),
{
    let r = covers_fields(a, b) && covers_fields(b, a);
    proof {
        if r {
            assert(field_bytes(*a) =~= field_bytes(*b));
        }
    }
    r
}

/// Whether one set of metadata holds all of another.
pub fn covers_metadata(a: &Metadata, b: &Metadata) -> (r: bool)
    ensures
        r == forall|k: Seq<char>| #[trigger]
            metadata_of(*b).contains_key(k) ==> metadata_of(*a).contains_key(k) && same_json(
                metadata_of(*a)[k],
                metadata_of(*b)[k],
            ),
{
    let n = b.len();
    let ghost keys = b.listing();
    let mut i: usize = 0;
    while i < n
        invariant
            i <= n,
            n == keys.len(),
            n == b.values().len(),
            keys == b.listing(),
            forall|j: int|
                0 <= j < n ==> b@.contains_key(#[trigger] keys[j]) && b@[keys[j]] == b.values()[j],
            forall|j: int|
                0 <= j < i ==> a@.contains_key(#[trigger] keys[j]) && same_json(
                    a@[keys[j]]@,
                    b@[keys[j]]@,
                ),
        decreases n - i,
    {
        let same = match a.get(b.key_at(i)) {
            Some(v) => v.same(b.value_at(i)),
            None => false,
        };
        if !same {
            assert(b@.contains_key(keys[i as int]));
            assert(metadata_of(*b).contains_key(keys[i as int]));
            return false;
        }
        i = i + 1;
    }
    assert forall|k: Seq<char>| #[trigger] metadata_of(*b).contains_key(k) implies metadata_of(
        *a,
    ).contains_key(k) && same_json(metadata_of(*a)[k], metadata_of(*b)[k]) by {
        assert(keys.contains(k));
        let j = choose|j: int| 0 <= j < keys.len() && keys[j] == k;
        assert(a@.contains_key(keys[j]));
    }
    true
}

/// Equal metadata: the same names, with equal values.
pub open spec fn metadata_equal(a: Map<Seq<char>, JsonV>, b: Map<Seq<char>, JsonV>) -> bool {
    a.dom() == b.dom() && forall|k: Seq<char>| #[trigger] a.contains_key(k) ==> same_json(a[k], b[k])
}

/// Whether two sets of metadata are equal.
pub fn same_metadata(a: &Metadata, b: &Metadata) -> (r: bool)
    ensures
        r == metadata_equal(metadata_of(*a), metadata_of(*b)),
{
    let r = covers_metadata(a, b) && covers_metadata(b, a);
    proof {
        let (x, y) = (metadata_of(*a), metadata_of(*b));
        if r {
            assert(x.dom() =~= y.dom());
            assert forall|k: Seq<char>| #[trigger] x.contains_key(k) implies same_json(x[k], y[k]) by {
                assert(y.contains_key(k));
            }
        }
        if metadata_equal(x, y) {
            assert forall|k: Seq<char>| #[trigger] y.contains_key(k) implies x.contains_key(k)
                && same_json(x[k], y[k]) by {
                assert(x.dom().contains(k));
            }
            assert forall|k: Seq<char>| #[trigger] x.contains_key(k) implies y.contains_key(k)
                && same_json(y[k], x[k]) by {
                assert(y.dom().contains(k));
            }
        }
    }
    r
}

/// A gate key is a short text of letters, digits and some marks.
pub open spec fn gate_key_valid(s: Seq<char>) -> bool {
    0 < s.len() <= 256 && forall|i: int| 0 <= i < s.len() ==> gate_char(#[trigger] s[i])
}

pub open spec fn gate_char(c: char) -> bool {
    ('a' <= c && c <= 'z') || ('A' <= c && c <= 'Z') || ('0' <= c && c <= '9') || c == '.' || c
        == '_' || c == ':' || c == '-'
}

pub fn valid_gate_key(key: &str) -> (r: bool)
    ensures
        r == gate_key_valid(key@),
{
    let chars = chars_of(key);
    if chars.len() == 0 || chars.len() > 256 {
        return false;
    }
    let mut i: usize = 0;
    while i < chars.len()
        invariant
            i <= chars@.len(),
            chars@ == key@,
            forall|j: int| 0 <= j < i ==> gate_char(#[trigger] key@[j]),
        decreases chars@.len() - i,
    {
        let c = chars[i];
        let ok = ('a' <= c && c <= 'z') || ('A' <= c && c <= 'Z') || ('0' <= c && c <= '9') || c
            == '.' || c == '_' || c == ':' || c == '-';
        if !ok {
            assert(!gate_char(key@[i as int]));
            return false;
        }
        i = i + 1;
    }
    true
}

/// Whether every gate key is valid.
pub fn valid_gate_keys(keys: &Vec<String>) -> (r: bool)
    ensures
        r == forall|k: int| 0 <= k < keys@.len() ==> gate_key_valid(#[trigger] texts(keys@)[k]),
{
    let mut i: usize = 0;
    while i < keys.len()
        invariant
            i <= keys@.len(),
            forall|k: int| 0 <= k < i ==> gate_key_valid(#[trigger] texts(keys@)[k]),
        decreases keys@.len() - i,
    {
        assert(texts(keys@)[i as int] == keys@[i as int]@);
        if !valid_gate_key(keys[i].as_str()) {
            return false;
        }
        i = i + 1;
    }
    true
}

/// Whether a text begins with another.
pub open spec fn leads(prefix: Seq<char>, s: Seq<char>) -> bool {
    prefix.len() <= s.len() && s.take(prefix.len() as int) == prefix
}

pub fn begins_with(s: &str, prefix: &str) -> (r: bool)
    ensures
        r == leads(prefix@, s@),
{
    let a = chars_of(s);
    let b = chars_of(prefix);
    if b.len() > a.len() {
        return false;
    }
    let mut i: usize = 0;
    while i < b.len()
        invariant
            i <= b@.len() <= a@.len(),
            a@ == s@,
            b@ == prefix@,
            forall|j: int| 0 <= j < i ==> a@[j] == b@[j],
        decreases b@.len() - i,
    {
        if a[i] != b[i] {
            assert(s@.take(prefix@.len() as int)[i as int] != prefix@[i as int]);
            return false;
        }
        i = i + 1;
    }
    assert(s@.take(prefix@.len() as int) =~= prefix@);
    true
}

} // verus!
