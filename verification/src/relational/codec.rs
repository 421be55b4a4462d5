//! How queue values are written in columns.

use crate::digest::{sha256, sha256_of};
use crate::eligibility::{priority_sort, sort_bytes};
use crate::order::{OrdMap, ascending, listing_of};
use crate::relational::value::bytes_opt;
use crate::shared::{bytes_from, bytes_slice};
use crate::text::{clone_bytes, decimal, numeral, opt_text, parse_unsigned, parsed_unsigned, same_text, texts};
use crate::types::{CommandPosition, EngineError, EngineResult, ErrorV, FieldMap, ItemId, ItemState, PriorityModel, PriorityV, PriorityValue, UtcTimestamp, field_bytes, keys_view, opt_bytes, opt_priority, outcome};
use std::collections::BTreeMap;
use vstd::prelude::*;
use vstd::string::*;
use vstd::utf8::encode_utf8;

verus! {

/// The nearest value that a column can hold.
pub open spec fn saturated(v: int) -> i64 {
    if v > i64::MAX {
        i64::MAX
    } else if v < i64::MIN {
        i64::MIN
    } else {
        v as i64
    }
}

fn saturate(v: i128) -> (r: i64)
    ensures
        r == saturated(v as int),
{
    if v > 0x7fff_ffff_ffff_ffff {
        0x7fff_ffff_ffff_ffff
    } else if v < -0x8000_0000_0000_0000 {
        -0x8000_0000_0000_0000
    } else {
        v as i64
    }
}

/// A sum that wraps round where it leaves the range of a column.
pub open spec fn wrapped_sum(a: i64, b: i64) -> i64 {
    if a + b > i64::MAX {
        (a + b - 0x1_0000_0000_0000_0000) as i64
    } else if a + b < i64::MIN {
        (a + b + 0x1_0000_0000_0000_0000) as i64
    } else {
        (a + b) as i64
    }
}

pub fn wrap_sum(a: i64, b: i64) -> (r: i64)
    ensures
        r == wrapped_sum(a, b),
{
    a.wrapping_add(b)
}

/// Nanoseconds since the epoch.
pub open spec fn nanos(t: UtcTimestamp) -> i64 {
    saturated(saturated(t.seconds * 1_000_000_000) + t.nanoseconds)
}

pub fn ts_nanos(t: UtcTimestamp) -> (r: i64)
    ensures
        r == nanos(t),
{
    let whole = saturate(t.seconds as i128 * 1_000_000_000);
    saturate(whole as i128 + t.nanoseconds as i128)
}

pub open spec fn opt_nanos(t: Option<UtcTimestamp>) -> Option<i64> {
    match t {
        Some(x) => Some(nanos(x)),
        None => None,
    }
}

pub fn ts_nanos_opt(t: Option<UtcTimestamp>) -> (r: Option<i64>)
    ensures
        r == opt_nanos(t),
{
    match t {
        Some(x) => Some(ts_nanos(x)),
        None => None,
    }
}

/// A time that many milliseconds later.
pub open spec fn millis_later(n: i64, ms: u64) -> i64 {
    saturated(n + saturated((ms as i64) * 1_000_000))
}

pub fn later_by(n: i64, ms: u64) -> (r: i64)
    ensures
        r == millis_later(n, ms),
{
    let span = saturate((ms as i64) as i128 * 1_000_000);
    saturate(n as i128 + span as i128)
}

/// A time that many milliseconds before.
pub open spec fn millis_before(n: i64, ms: u64) -> i64 {
    saturated(n - saturated((ms as i64) * 1_000_000))
}

pub fn before_by(n: i64, ms: u64) -> (r: i64)
    ensures
        r == millis_before(n, ms),
{
    let span = saturate((ms as i64) as i128 * 1_000_000);
    saturate(n as i128 - span as i128)
}

/// A lease token as it is stored: only its digest.
pub open spec fn token_hash(token: Seq<char>) -> Seq<u8> {
    sha256_of(encode_utf8(token))
}

pub fn lease_hash(token: &str) -> (r: Vec<u8>)
    ensures
        r@ == token_hash(token@),
{
    let bytes = slice_bytes(token.as_bytes());
    sha256(&bytes)
}

pub fn slice_bytes(s: &[u8]) -> (r: Vec<u8>)
    ensures
        r@ == s@,
{
    let mut out: Vec<u8> = Vec::new();
    let mut i: usize = 0;
    while i < s.len()
        invariant
            i <= s@.len(),
            out@ == s@.take(i as int),
        decreases s@.len() - i,
    {
        out.push(s[i]);
        assert(s@.take(i as int + 1) =~= s@.take(i as int).push(s@[i as int]));
        i = i + 1;
    }
    assert(out@ =~= s@);
    out
}

/// The bytes of a buffer in a vector.
pub fn buffer_bytes(b: &Option<bytes::Bytes>) -> (r: Option<Vec<u8>>)
    ensures
        bytes_opt(r) == opt_bytes(*b),
{
    match b {
        Some(x) => Some(slice_bytes(bytes_slice(x))),
        None => None,
    }
}

pub open spec fn state_name(s: ItemState) -> Seq<char> {
    match s {
        ItemState::Pending => "Pending"@,
        ItemState::Leased => "Leased"@,
        ItemState::Complete => "Complete"@,
        ItemState::Failed => "Failed"@,
    }
}

pub fn state_str(s: ItemState) -> (r: &'static str)
    ensures
        r@ == state_name(s),
{
    match s {
        ItemState::Pending => "Pending",
        ItemState::Leased => "Leased",
        ItemState::Complete => "Complete",
        ItemState::Failed => "Failed",
    }
}

/// The state of a name, if it is one.
pub open spec fn state_named(t: Seq<char>) -> Result<ItemState, ErrorV> {
    if t == "Pending"@ {
        Ok(ItemState::Pending)
    } else if t == "Leased"@ {
        Ok(ItemState::Leased)
    } else if t == "Complete"@ {
        Ok(ItemState::Complete)
    } else if t == "Failed"@ {
        Ok(ItemState::Failed)
    } else {
        Err(ErrorV::Storage("unknown lifecycle state "@ + t))
    }
}

pub fn parse_state(t: &str) -> (r: EngineResult<ItemState>)
    ensures
        outcome(r) == state_named(t@),
{
    if same_text(t, "Pending") {
        Ok(ItemState::Pending)
    } else if same_text(t, "Leased") {
        Ok(ItemState::Leased)
    } else if same_text(t, "Complete") {
        Ok(ItemState::Complete)
    } else if same_text(t, "Failed") {
        Ok(ItemState::Failed)
    } else {
        Err(EngineError::Storage("unknown lifecycle state ".to_owned().concat(t)))
    }
}

/// The item of a text, if it is a numeral of one.
pub open spec fn item_named(t: Seq<char>) -> Result<ItemId, ErrorV> {
    match parsed_unsigned(t, u64::MAX as nat) {
        Some(n) => Ok(n as u64),
        None => Err(ErrorV::Storage("invalid item id"@)),
    }
}

pub fn parse_item(t: &str) -> (r: EngineResult<ItemId>)
    ensures
        outcome(r) == item_named(t@),
{
    match parse_unsigned(t, 0xffff_ffff_ffff_ffff) {
        Some(n) => Ok(n),
        None => Err(EngineError::Storage("invalid item id".to_owned())),
    }
}

/// The sort column of a priority: an unset one comes last.
pub open spec fn sort_column(p: Option<PriorityV>, model: PriorityModel) -> Seq<u8> {
    match p {
        None => seq![1u8],
        Some(x) => seq![0u8] + sort_bytes(x, model),
    }
}

pub fn elig_sort(p: &Option<PriorityValue>, model: &PriorityModel) -> (r: Vec<u8>)
    ensures
        r@ == sort_column(opt_priority(*p), *model),
{
    match p {
        None => {
            let mut out: Vec<u8> = Vec::new();
            out.push(1);
            assert(out@ =~= seq![1u8]);
            out
        },
        Some(x) => {
            let sorted = priority_sort(x, model);
            let mut out: Vec<u8> = Vec::new();
            out.push(0);
            let mut i: usize = 0;
            assert(out@ =~= seq![0u8] + sorted@.take(0));
            while i < sorted.len()
                invariant
                    i <= sorted@.len(),
                    out@ == seq![0u8] + sorted@.take(i as int),
                decreases sorted@.len() - i,
            {
                out.push(sorted[i]);
                assert(out@ =~= seq![0u8] + sorted@.take(i as int + 1));
                i = i + 1;
            }
            assert(sorted@.take(i as int) =~= sorted@);
            out
        },
    }
}

/// Texts as a JSON list.
pub uninterp spec fn texts_json(t: Seq<Seq<char>>) -> Result<Seq<char>, Seq<char>>;

/// `serde_json::to_string` on a list of strings: the text. It does not fail on strings.
#[verifier::external_body]
pub(crate) fn render_texts(list: &Vec<String>) -> (r: Result<String, String>)
    ensures
        r is Ok,
        text_result(r) == texts_json(texts(list@)),
{
    serde_json::to_string(list).map_err(|e| e.to_string())
}

/// The named lists of texts, as texts.
pub open spec fn lists_view(v: Seq<(String, Vec<String>)>) -> Seq<(Seq<char>, Seq<Seq<char>>)> {
    v.map_values(|m: (String, Vec<String>)| (m.0@, texts(m.1@)))
}

/// The named texts, each there or not, as texts.
pub open spec fn options_view(v: Seq<(String, Option<String>)>) -> Seq<
    (Seq<char>, Option<Seq<char>>),
> {
    v.map_values(|m: (String, Option<String>)| (m.0@, opt_text(m.1)))
}

/// No name is there twice.
pub open spec fn named_once(
    lists: Seq<(Seq<char>, Seq<Seq<char>>)>,
    options: Seq<(Seq<char>, Option<Seq<char>>)>,
) -> bool {
    (lists.map_values(|m: (Seq<char>, Seq<Seq<char>>)| m.0) + options.map_values(
        |m: (Seq<char>, Option<Seq<char>>)| m.0,
    )).no_duplicates()
}

/// A JSON object: a list of texts under each name of the first list, a text or nothing under each
/// name of the second.
pub uninterp spec fn object_json(
    lists: Seq<(Seq<char>, Seq<Seq<char>>)>,
    options: Seq<(Seq<char>, Option<Seq<char>>)>,
) -> Result<Seq<char>, Seq<char>>;

/// `serde_json::to_string` on an object with the given members, lists of strings and strings or null:
/// the text. It does not fail on such an object.
#[verifier::external_body]
pub(crate) fn render_object(
    lists: Vec<(String, Vec<String>)>,
    options: Vec<(String, Option<String>)>,
) -> (r: Result<String, String>)
    requires
        named_once(lists_view(lists@), options_view(options@)),
    ensures
        r is Ok,
        text_result(r) == object_json(lists_view(lists@), options_view(options@)),
{
    let mut object: serde_json::Map<String, serde_json::Value> = serde_json::Map::new();
    object.extend(lists.into_iter().map(|m| (m.0, serde_json::Value::from(m.1))));
    object.extend(options.into_iter().map(|m| (m.0, serde_json::Value::from(m.1))));
    serde_json::to_string(&object).map_err(|e| e.to_string())
}

pub open spec fn text_result(r: Result<String, String>) -> Result<Seq<char>, Seq<char>> {
    match r {
        Ok(t) => Ok(t@),
        Err(t) => Err(t@),
    }
}

/// A failure of a codec is a storage fault.
pub open spec fn coded<A>(r: Result<A, Seq<char>>) -> Result<A, ErrorV> {
    match r {
        Ok(a) => Ok(a),
        Err(t) => Err(ErrorV::Storage(t)),
    }
}

/// Numerals of items.
pub open spec fn id_texts(ids: Seq<ItemId>) -> Seq<Seq<char>> {
    ids.map_values(|i: ItemId| numeral(i as nat))
}

/// The numerals of items.
pub fn id_strings(ids: &Vec<ItemId>) -> (r: Vec<String>)
    ensures
        texts(r@) == id_texts(ids@),
{
    let mut out: Vec<String> = Vec::new();
    let mut i: usize = 0;
    assert(texts(out@) =~= id_texts(ids@.take(0)));
    while i < ids.len()
        invariant
            i <= ids@.len(),
            texts(out@) == id_texts(ids@.take(i as int)),
        decreases ids@.len() - i,
    {
        let ghost before = out@;
        out.push(decimal(ids[i]));
        assert(texts(out@) =~= id_texts(ids@.take(i as int + 1))) by {
            assert(texts(before).len() == i);
            assert forall|j: int| 0 <= j < i implies texts(out@)[j] == id_texts(
                ids@.take(i as int + 1),
            )[j] by {
                assert(texts(before)[j] == id_texts(ids@.take(i as int))[j]);
            }
        }
        i = i + 1;
    }
    assert(ids@.take(i as int) =~= ids@);
    out
}

/// Items as a JSON list of their numerals.
pub open spec fn ids_json(ids: Seq<ItemId>) -> Result<Seq<char>, ErrorV> {
    coded(texts_json(id_texts(ids)))
}

pub fn render_ids(ids: &Vec<ItemId>) -> (r: EngineResult<String>)
    ensures
        (match r {
            Ok(t) => Ok(t@),
            Err(e) => Err(e@),
        }) == ids_json(ids@),
{
    match render_texts(&id_strings(ids)) {
        Ok(t) => Ok(t),
        Err(e) => Err(EngineError::Storage(e)),
    }
}

/// The place of one command as a JSON list of epoch and sequence.
pub open spec fn positions_json(epoch: u64, sequence: u64) -> Seq<char> {
    "[["@ + numeral(epoch as nat) + ","@ + numeral(sequence as nat) + "]]"@
}

/// `serde_json::to_string` on a list of one pair of numbers: the pair in two pairs of brackets.
#[verifier::external_body]
pub(crate) fn render_position(epoch: u64, sequence: u64) -> (r: Result<String, String>)
    ensures
        r is Ok,
        r->Ok_0@ == positions_json(epoch, sequence),
{
    serde_json::to_string(&vec![(epoch, sequence)]).map_err(|e| e.to_string())
}

pub fn command_positions_json(position: &CommandPosition) -> (r: EngineResult<String>)
    ensures
        r is Ok,
        r->Ok_0@ == positions_json(position.backend_epoch, position.sequence),
{
    match render_position(position.backend_epoch, position.sequence) {
        Ok(t) => Ok(t),
        Err(e) => Err(EngineError::Storage(e)),
    }
}

/// Named bytes as a JSON object.
pub uninterp spec fn fields_json(f: Seq<(Seq<char>, Seq<u8>)>) -> Result<Seq<char>, Seq<char>>;

/// The named bytes that a JSON object holds, by name.
pub uninterp spec fn fields_parsed(t: Seq<char>) -> Result<
    Seq<(Seq<char>, Seq<u8>)>,
    Seq<char>,
>;

/// Each name comes before the next.
pub open spec fn names_ascend(f: Seq<(Seq<char>, Seq<u8>)>) -> bool {
    ascending::<String>(f.map_values(|p: (Seq<char>, Seq<u8>)| p.0))
}

/// A text out of which named bytes are read.
pub open spec fn reads_back(r: Result<String, String>, f: Seq<(Seq<char>, Seq<u8>)>) -> bool {
    r is Ok && fields_parsed(r->Ok_0@) == Ok::<Seq<(Seq<char>, Seq<u8>)>, Seq<char>>(f)
}

/// `serde_json::to_string` on a sorted map from names to bytes: an object of number lists. It does not
/// fail on such a map, and `serde_json::from_str` reads the same names and bytes back out of the text.
#[verifier::external_body]
pub(crate) fn render_pairs(pairs: Vec<(String, Vec<u8>)>) -> (r: Result<String, String>)
    requires
        names_ascend(keys_view(pairs@)),
    ensures
        r is Ok,
        text_result(r) == fields_json(keys_view(pairs@)),
        reads_back(r, keys_view(pairs@)),
{
    serde_json::to_string(&pairs.into_iter().collect::<BTreeMap<_, _>>()).map_err(|e| e.to_string())
}

pub open spec fn pairs_result(r: Result<Vec<(String, Vec<u8>)>, String>) -> Result<
    Seq<(Seq<char>, Seq<u8>)>,
    Seq<char>,
> {
    match r {
        Ok(v) => Ok(keys_view(v@)),
        Err(t) => Err(t@),
    }
}

/// `serde_json::from_str` into a sorted map from names to bytes, listed by name.
#[verifier::external_body]
pub(crate) fn parse_pairs(text: &str) -> (r: Result<Vec<(String, Vec<u8>)>, String>)
    ensures
        pairs_result(r) == fields_parsed(text@),
{
    let map: Result<BTreeMap<String, Vec<u8>>, _> = serde_json::from_str(text);
    map.map(|m| m.into_iter().collect()).map_err(|e| e.to_string())
}

/// The names and bytes of an item's fields, by name.
pub open spec fn field_pairs(m: Map<Seq<char>, Seq<u8>>) -> Seq<(Seq<char>, Seq<u8>)> {
    listing_of::<String>(m.dom()).map_values(|k: Seq<char>| (k, m[k]))
}

pub open spec fn fields_text(m: Map<Seq<char>, Seq<u8>>) -> Result<Seq<char>, ErrorV> {
    coded(fields_json(field_pairs(m)))
}

/// Named bytes as a map; of two under one name the later counts.
pub open spec fn pairs_map(p: Seq<(Seq<char>, Seq<u8>)>) -> Map<Seq<char>, Seq<u8>>
    decreases p.len(),
{
    if p.len() == 0 {
        Map::empty()
    } else {
        pairs_map(p.drop_last()).insert(p.last().0, p.last().1)
    }
}

pub open spec fn fields_of_text(t: Seq<char>) -> Result<Map<Seq<char>, Seq<u8>>, ErrorV> {
    match fields_parsed(t) {
        Ok(p) => Ok(pairs_map(p)),
        Err(e) => Err(ErrorV::Storage(e)),
    }
}

/// The first names of a listing, with their bytes, as a map.
proof fn lemma_pairs_map(names: Seq<Seq<char>>, m: Map<Seq<char>, Seq<u8>>, n: int)
    requires
        names == listing_of::<String>(m.dom()),
        ascending::<String>(names),
        0 <= n <= names.len(),
    ensures
        forall|k: Seq<char>| #[trigger]
            pairs_map(field_pairs(m).take(n)).contains_key(k) <==> names.take(n).contains(k),
        forall|k: Seq<char>| #[trigger]
            pairs_map(field_pairs(m).take(n)).contains_key(k) ==> pairs_map(
                field_pairs(m).take(n),
            )[k] == m[k],
    decreases n,
{
    if n > 0 {
        lemma_pairs_map(names, m, n - 1);
        let all = field_pairs(m);
        assert(all.take(n).drop_last() =~= all.take(n - 1));
        assert(all.take(n).last() == (names[n - 1], m[names[n - 1]]));
        let t = names.take(n - 1);
        let u = names.take(n);
        assert(u =~= t.push(names[n - 1]));
        assert forall|k: Seq<char>| u.contains(k) == (t.contains(k) || k == names[n - 1]) by {
            if t.contains(k) {
                let j = choose|j: int| 0 <= j < t.len() && t[j] == k;
                assert(u[j] == k);
            }
            if u.contains(k) {
                let j = choose|j: int| 0 <= j < u.len() && u[j] == k;
                if j < t.len() {
                    assert(t[j] == k);
                }
            }
            assert(u[n - 1] == names[n - 1]);
        }
        let p = pairs_map(all.take(n - 1));
        let q = pairs_map(all.take(n));
        assert(q == p.insert(names[n - 1], m[names[n - 1]]));
        assert forall|k: Seq<char>| #[trigger] q.contains_key(k) <==> u.contains(k) by {
            assert(p.contains_key(k) <==> t.contains(k));
        }
        assert forall|k: Seq<char>| #[trigger] q.contains_key(k) implies q[k] == m[k] by {
            if k != names[n - 1] {
                assert(p.contains_key(k));
            }
        }
    } else {
        assert(field_pairs(m).take(0) =~= Seq::<(Seq<char>, Seq<u8>)>::empty());
    }
}

/// The fields of an item as they are stored. Reading them gives the fields back.
pub fn fields_to_json(fields: &FieldMap) -> (r: EngineResult<String>)
    ensures
        r is Ok,
        (match r {
            Ok(t) => Ok(t@),
            Err(e) => Err(e@),
        }) == fields_text(field_bytes(*fields)),
        fields_of_text(r->Ok_0@) == Ok::<Map<Seq<char>, Seq<u8>>, ErrorV>(field_bytes(*fields)),
{
    let n = fields.len();
    let ghost all = field_pairs(field_bytes(*fields));
    let mut pairs: Vec<(String, Vec<u8>)> = Vec::new();
    let mut i: usize = 0;
    proof {
        assert(field_bytes(*fields).dom() =~= fields@.dom());
        assert(fields.listing() == listing_of::<String>(fields@.dom()));
    }
    while i < n
        invariant
            i <= n,
            n == fields.listing().len(),
            n == fields.values().len(),
            all == field_pairs(field_bytes(*fields)),
            fields.listing() == listing_of::<String>(field_bytes(*fields).dom()),
            forall|j: int|
                0 <= j < n ==> fields@.contains_key(#[trigger] fields.listing()[j])
                    && fields@[fields.listing()[j]] == fields.values()[j],
            keys_view(pairs@) == all.take(i as int),
        decreases n - i,
    {
        let ghost before = pairs@;
        let name = fields.key_at(i).clone();
        let value = slice_bytes(bytes_slice(fields.value_at(i)));
        proof {
            assert(fields@.contains_key(fields.listing()[i as int]));
        }
        pairs.push((name, value));
        assert(keys_view(pairs@) =~= keys_view(before).push((name@, value@)));
        assert(all.take(i as int + 1) =~= all.take(i as int).push(all[i as int]));
        i = i + 1;
    }
    assert(all.take(i as int) =~= all);
    proof {
        let names = fields.listing();
        assert(all.map_values(|p: (Seq<char>, Seq<u8>)| p.0) =~= names);
        lemma_pairs_map(names, field_bytes(*fields), n as int);
        assert(all.take(n as int) =~= all);
        assert(names.take(n as int) =~= names);
        let m = field_bytes(*fields);
        let q = pairs_map(all);
        assert forall|k: Seq<char>| q.contains_key(k) == m.contains_key(k) by {
            if m.contains_key(k) {
                assert(fields@.contains_key(k));
            }
        }
        assert(q =~= m);
    }
    match render_pairs(pairs) {
        Ok(t) => Ok(t),
        Err(e) => Err(EngineError::Storage(e)),
    }
}

pub fn fields_from_json(text: &str) -> (r: EngineResult<FieldMap>)
    ensures
        (match r {
            Ok(m) => Ok(field_bytes(m)),
            Err(e) => Err(e@),
        }) == fields_of_text(text@),
{
    match parse_pairs(text) {
        Err(e) => Err(EngineError::Storage(e)),
        Ok(pairs) => {
            let ghost all = keys_view(pairs@);
            let mut out: FieldMap = OrdMap::new();
            let mut i: usize = 0;
            assert(all.take(0) =~= Seq::<(Seq<char>, Seq<u8>)>::empty());
            assert(field_bytes(out) =~= pairs_map(all.take(0)));
            while i < pairs.len()
                invariant
                    i <= pairs@.len(),
                    all == keys_view(pairs@),
                    field_bytes(out) == pairs_map(all.take(i as int)),
                decreases pairs@.len() - i,
            {
                proof {
                    assert(all.take(i as int + 1).drop_last() =~= all.take(i as int));
                    assert(all.take(i as int + 1).last() == (
                        pairs@[i as int].0@,
                        pairs@[i as int].1@,
                    ));
                }
                let ghost before = out;
                let value = bytes_from(clone_bytes(&pairs[i].1));
                out.insert(pairs[i].0.clone(), value);
                assert(field_bytes(out) =~= field_bytes(before).insert(
                    pairs@[i as int].0@,
                    pairs@[i as int].1@,
                ));
                i = i + 1;
            }
            assert(all.take(i as int) =~= all);
            Ok(out)
        },
    }
}

} // verus!
