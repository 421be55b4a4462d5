//! Values to look up in a typed index, as they are given: what each is read as, and the fields that the
//! key is worked out of.

use crate::encoding::text_from_utf8;
use crate::indexing::{lookup_of, typed_at};
use crate::projection::ProjectionData;
use crate::text::{clone_bytes, same_text};
use crate::types::{EngineError, EngineResult, ErrorV, IndexField, IndexType, index_fields_v, typed_specs_v};
use vstd::prelude::*;
use vstd::utf8::{decode_utf8, valid_utf8};

verus! {

/// The kinds of JSON values.
#[derive(Clone, Copy, PartialEq, Eq, Structural, Debug)]
pub enum JsonKind {
    Null,
    Bool,
    Number,
    Text,
    List,
    Object,
}

/// Which kind of JSON value the bytes are, if they are one.
pub uninterp spec fn json_kind_of(bytes: Seq<u8>) -> Option<JsonKind>;

/// `serde_json::from_slice` into a JSON value: the kind of the value, or nothing where the bytes are no
/// JSON value.
#[verifier::external_body]
fn json_kind(bytes: &Vec<u8>) -> (r: Option<JsonKind>)
    ensures
        r == json_kind_of(bytes@),
{
    match serde_json::from_slice::<serde_json::Value>(bytes) {
        Ok(serde_json::Value::Null) => Some(JsonKind::Null),
        Ok(serde_json::Value::Bool(_)) => Some(JsonKind::Bool),
        Ok(serde_json::Value::Number(_)) => Some(JsonKind::Number),
        Ok(serde_json::Value::String(_)) => Some(JsonKind::Text),
        Ok(serde_json::Value::Array(_)) => Some(JsonKind::List),
        Ok(serde_json::Value::Object(_)) => Some(JsonKind::Object),
        Err(_) => None,
    }
}

/// A value to look up: a text, or the JSON value that the bytes are.
#[derive(Debug, PartialEq, Eq)]
pub enum LookupValue {
    Text(String),
    Json(Vec<u8>),
}

pub ghost enum LookupV {
    Text(Seq<char>),
    Json(Seq<u8>),
}

impl LookupValue {
    pub open spec fn view(&self) -> LookupV {
        match self {
            LookupValue::Text(t) => LookupV::Text(t@),
            LookupValue::Json(b) => LookupV::Json(b@),
        }
    }
}

/// Bytes as a text.
pub open spec fn text_value(bytes: Seq<u8>) -> Result<LookupV, ErrorV> {
    if valid_utf8(bytes) {
        Ok(LookupV::Text(decode_utf8(bytes)))
    } else {
        Err(ErrorV::Invalid("lookup key is not valid UTF-8"@))
    }
}

/// What the bytes are read as under an index of a type, by the kind of JSON value that they are. A text
/// is never read as JSON, and an instant only where it is a number.
pub open spec fn value_read(t: IndexType, bytes: Seq<u8>, kind: Option<JsonKind>) -> Result<
    LookupV,
    ErrorV,
> {
    match t {
        IndexType::String => text_value(bytes),
        IndexType::Datetime => if kind == Some(JsonKind::Number) {
            Ok(LookupV::Json(bytes))
        } else {
            text_value(bytes)
        },
        IndexType::Boolean => if kind is Some {
            Ok(LookupV::Json(bytes))
        } else {
            Err(ErrorV::Invalid("lookup key is not a valid JSON boolean"@))
        },
        _ => if kind is Some {
            Ok(LookupV::Json(bytes))
        } else {
            Err(ErrorV::Invalid("lookup key is not a valid JSON number"@))
        },
    }
}

pub open spec fn value_outcome(r: EngineResult<LookupValue>) -> Result<LookupV, ErrorV> {
    match r {
        Ok(v) => Ok(v@),
        Err(e) => Err(e@),
    }
}

fn read_text(bytes: &Vec<u8>) -> (r: EngineResult<LookupValue>)
    ensures
        value_outcome(r) == text_value(bytes@),
{
    match text_from_utf8(clone_bytes(bytes)) {
        Some(t) => Ok(LookupValue::Text(t)),
        None => Err(EngineError::Invalid("lookup key is not valid UTF-8")),
    }
}

pub fn read_lookup_value(index_type: IndexType, bytes: &Vec<u8>, kind: Option<JsonKind>) -> (r:
    EngineResult<LookupValue>)
    ensures
        value_outcome(r) == value_read(index_type, bytes@, kind),
{
    match index_type {
        IndexType::String => read_text(bytes),
        IndexType::Datetime => match kind {
            Some(JsonKind::Number) => Ok(LookupValue::Json(clone_bytes(bytes))),
            _ => read_text(bytes),
        },
        IndexType::Boolean => match kind {
            Some(_) => Ok(LookupValue::Json(clone_bytes(bytes))),
            None => Err(EngineError::Invalid("lookup key is not a valid JSON boolean")),
        },
        _ => match kind {
            Some(_) => Ok(LookupValue::Json(clone_bytes(bytes))),
            None => Err(EngineError::Invalid("lookup key is not a valid JSON number")),
        },
    }
}

pub fn decode_typed_lookup_value(index_type: IndexType, bytes: &Vec<u8>) -> (r: EngineResult<
    LookupValue,
>)
    ensures
        value_outcome(r) == value_read(index_type, bytes@, json_kind_of(bytes@)),
{
    let kind = json_kind(bytes);
    read_lookup_value(index_type, bytes, kind)
}

/// The first `n` fields with what their values are read as. The first value that cannot be read decides.
pub open spec fn fields_read(
    fields: Seq<(Seq<char>, IndexType)>,
    values: Seq<Vec<u8>>,
    n: nat,
) -> Result<Seq<(Seq<char>, LookupV)>, ErrorV>
    decreases n,
{
    if n == 0 {
        Ok(Seq::empty())
    } else {
        match fields_read(fields, values, (n - 1) as nat) {
            Err(e) => Err(e),
            Ok(before) => match value_read(
                fields[n - 1].1,
                values[n - 1]@,
                json_kind_of(values[n - 1]@),
            ) {
                Err(e) => Err(e),
                Ok(v) => Ok(before.push((fields[n - 1].0, v))),
            },
        }
    }
}

pub open spec fn pairs_read(v: Seq<(String, LookupValue)>) -> Seq<(Seq<char>, LookupV)> {
    v.map_values(|p: (String, LookupValue)| (p.0@, p.1@))
}

proof fn lemma_fields_stop(
    fields: Seq<(Seq<char>, IndexType)>,
    values: Seq<Vec<u8>>,
    k: nat,
    n: nat,
)
    requires
        k <= n,
        fields_read(fields, values, k) is Err,
    ensures
        fields_read(fields, values, n) == fields_read(fields, values, k),
    decreases n,
{
    if k < n {
        lemma_fields_stop(fields, values, k, (n - 1) as nat);
    }
}

fn read_fields(fields: &Vec<IndexField>, values: &Vec<Vec<u8>>) -> (r: EngineResult<
    Vec<(String, LookupValue)>,
>)
    requires
        fields@.len() == values@.len(),
    ensures
        (match r {
            Ok(v) => Ok(pairs_read(v@)),
            Err(e) => Err(e@),
        }) == fields_read(index_fields_v(fields@), values@, values@.len()),
{
    let ghost fs = index_fields_v(fields@);
    let mut out: Vec<(String, LookupValue)> = Vec::new();
    let mut i: usize = 0;
    assert(pairs_read(out@) =~= Seq::<(Seq<char>, LookupV)>::empty());
    while i < fields.len()
        invariant
            i <= fields@.len(),
            fields@.len() == values@.len(),
            fs == index_fields_v(fields@),
            fields_read(fs, values@, i as nat) == Ok::<Seq<(Seq<char>, LookupV)>, ErrorV>(
                pairs_read(out@),
            ),
        decreases fields@.len() - i,
    {
        assert(fs[i as int] == (fields@[i as int].field@, fields@[i as int].index_type));
        match decode_typed_lookup_value(fields[i].index_type, &values[i]) {
            Err(e) => {
                proof {
                    lemma_fields_stop(fs, values@, (i + 1) as nat, values@.len());
                }
                return Err(e);
            },
            Ok(v) => {
                let ghost before = out@;
                out.push((fields[i].field.clone(), v));
                assert(pairs_read(out@) =~= pairs_read(before).push((fs[i as int].0, v@)));
            },
        }
        i = i + 1;
    }
    Ok(out)
}

/// What the key of a lookup is worked out of: nothing but the values under a raw index, and each field
/// with its value under a typed one.
pub open spec fn lookup_read(
    m: crate::model::Model,
    name: Seq<char>,
    values: Seq<Vec<u8>>,
) -> Result<Option<Seq<(Seq<char>, LookupV)>>, ErrorV> {
    match lookup_of(m, name, values.len()) {
        Err(e) => Err(e),
        Ok(s) => if s.raw {
            Ok(None)
        } else {
            match fields_read(
                m.typed_index_specs[typed_at(m.typed_index_specs, name, 0)].fields,
                values,
                values.len(),
            ) {
                Err(e) => Err(e),
                Ok(f) => Ok(Some(f)),
            }
        },
    }
}

impl ProjectionData {
    /// The fields that the key of a lookup in a typed index is worked out of.
    pub fn lookup_fields(&self, index_name: &str, key_values: &Vec<Vec<u8>>) -> (r: EngineResult<
        Option<Vec<(String, LookupValue)>>,
    >)
        ensures
            (match r {
                Ok(Some(v)) => Ok(Some(pairs_read(v@))),
                Ok(None) => Ok(None),
                Err(e) => Err(e@),
            }) == lookup_read(self@, index_name@, key_values@),
    {
        let found = match self.index_spec(index_name, key_values.len()) {
            Ok(s) => s,
            Err(e) => return Err(e),
        };
        if found.raw {
            return Ok(None);
        }
        let ghost typed = self@.typed_index_specs;
        let mut k: usize = 0;
        while k < self.typed_index_specs.len()
            invariant
                k <= self.typed_index_specs@.len(),
                typed == typed_specs_v(self.typed_index_specs@),
                typed == self@.typed_index_specs,
                lookup_of(self@, index_name@, key_values@.len()) is Ok,
                !lookup_of(self@, index_name@, key_values@.len())->Ok_0.raw,
                typed_at(typed, index_name@, 0) == typed_at(typed, index_name@, k as int),
            decreases self.typed_index_specs@.len() - k,
        {
            assert(typed[k as int] == self.typed_index_specs@[k as int]@);
            if same_text(self.typed_index_specs[k].name.as_str(), index_name) {
                return match read_fields(&self.typed_index_specs[k].fields, key_values) {
                    Ok(v) => Ok(Some(v)),
                    Err(e) => Err(e),
                };
            }
            k = k + 1;
        }
        Ok(None)
    }
}

/// The key of a lookup, as it was worked out: there has to be one.
pub open spec fn key_needed(found: Result<Option<Seq<u8>>, Seq<char>>) -> Result<Seq<u8>, ErrorV> {
    match found {
        Err(t) => Err(ErrorV::Storage(t)),
        Ok(None) => Err(ErrorV::Storage("missing lookup key"@)),
        Ok(Some(k)) => Ok(k),
    }
}

pub fn typed_lookup_key(found: Result<Option<Vec<u8>>, String>) -> (r: EngineResult<Vec<u8>>)
    ensures
        crate::indexing::key_outcome(r) == key_needed(
            match found {
                Ok(Some(k)) => Ok(Some(k@)),
                Ok(None) => Ok(None),
                Err(t) => Err(t@),
            },
        ),
{
    match found {
        Err(t) => Err(EngineError::Storage(t)),
        Ok(None) => Err(EngineError::Storage("missing lookup key".to_owned())),
        Ok(Some(k)) => Ok(k),
    }
}

} // verus!
