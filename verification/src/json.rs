//! JSON documents: values, member access, RFC 6901 pointers and edits along them.

use crate::order::{Standing, text_lt, text_standing};
use crate::text::{chars_of, parse_unsigned, parsed_unsigned, pieces, same_text, split, text_of, texts};
use vstd::prelude::*;
use vstd::string::*;

verus! {

/// A number as it is held: an integer that is not negative, one that is, or the bits of a finite
/// value in binary floating point.
#[derive(Clone, Copy, PartialEq, Eq, Structural, Debug)]
pub enum JsonNumber {
    Unsigned(u64),
    Negative(i64),
    Float(u64),
}

impl JsonNumber {
    /// The number as a signed integer, where it is one.
    pub open spec fn integer(self) -> Option<i64> {
        match self {
            JsonNumber::Unsigned(n) => if n <= i64::MAX {
                Some(n as i64)
            } else {
                None
            },
            JsonNumber::Negative(n) => Some(n),
            JsonNumber::Float(_) => None,
        }
    }

    pub fn as_i64(&self) -> (r: Option<i64>)
        ensures
            r == self.integer(),
    {
        match self {
            JsonNumber::Unsigned(n) => if *n <= i64::MAX as u64 {
                Some(*n as i64)
            } else {
                None
            },
            JsonNumber::Negative(n) => Some(*n),
            JsonNumber::Float(_) => None,
        }
    }

    /// A signed integer as a number.
    pub open spec fn of_integer(n: i64) -> JsonNumber {
        if n < 0 {
            JsonNumber::Negative(n)
        } else {
            JsonNumber::Unsigned(n as u64)
        }
    }

    pub fn from_i64(n: i64) -> (r: JsonNumber)
        ensures
            r == JsonNumber::of_integer(n),
    {
        if n < 0 {
            JsonNumber::Negative(n)
        } else {
            JsonNumber::Unsigned(n as u64)
        }
    }

    /// The number with the sign of a floating zero taken off, since both zeros count as equal.
    pub open spec fn level(self) -> JsonNumber {
        match self {
            JsonNumber::Float(b) => JsonNumber::Float(
                if b == NEGATIVE_ZERO {
                    0
                } else {
                    b
                },
            ),
            _ => self,
        }
    }

    /// Whether two numbers are equal: of one kind, and of one value.
    pub fn equals(&self, other: &JsonNumber) -> (r: bool)
        ensures
            r == (self.level() == other.level()),
    {
        match (self, other) {
            (JsonNumber::Unsigned(a), JsonNumber::Unsigned(b)) => *a == *b,
            (JsonNumber::Negative(a), JsonNumber::Negative(b)) => *a == *b,
            (JsonNumber::Float(a), JsonNumber::Float(b)) => {
                let x: u64 = if *a == NEGATIVE_ZERO {
                    0
                } else {
                    *a
                };
                let y: u64 = if *b == NEGATIVE_ZERO {
                    0
                } else {
                    *b
                };
                x == y
            },
            _ => false,
        }
    }
}

/// The bits of a floating zero with a sign.
pub const NEGATIVE_ZERO: u64 = 0x8000_0000_0000_0000;

/// A JSON value. The members of an object stand in ascending order of their names.
#[derive(Debug)]
pub enum Json {
    Null,
    Bool(bool),
    Number(JsonNumber),
    Text(String),
    Array(Vec<Json>),
    Object(Vec<(String, Json)>),
}

/// What a JSON value holds.
pub ghost enum JsonV {
    Null,
    Bool(bool),
    Number(JsonNumber),
    Text(Seq<char>),
    Array(Seq<JsonV>),
    Object(Seq<(Seq<char>, JsonV)>),
}

impl Json {
    pub open spec fn view(&self) -> JsonV
        decreases self,
    {
        match self {
            Json::Null => JsonV::Null,
            Json::Bool(b) => JsonV::Bool(*b),
            Json::Number(n) => JsonV::Number(*n),
            Json::Text(t) => JsonV::Text(t@),
            Json::Array(v) => JsonV::Array(
                Seq::new(
                    v@.len(),
                    |i: int|
                        if 0 <= i < v@.len() {
                            v@[i].view()
                        } else {
                            JsonV::Null
                        },
                ),
            ),
            Json::Object(m) => JsonV::Object(
                Seq::new(
                    m@.len(),
                    |i: int|
                        if 0 <= i < m@.len() {
                            (m@[i].0@, m@[i].1.view())
                        } else {
                            (Seq::empty(), JsonV::Null)
                        },
                ),
            ),
        }
    }
}

/// What the values of an array hold.
pub open spec fn json_seq(v: Seq<Json>) -> Seq<JsonV> {
    v.map_values(|j: Json| j.view())
}

/// What the members of an object hold.
pub open spec fn json_members(v: Seq<(String, Json)>) -> Seq<(Seq<char>, JsonV)> {
    v.map_values(|p: (String, Json)| (p.0@, p.1.view()))
}

pub proof fn lemma_array_view(v: Vec<Json>)
    ensures
        Json::Array(v).view() == JsonV::Array(json_seq(v@)),
{
    assert(Json::Array(v).view()->Array_0 =~= json_seq(v@));
}

pub proof fn lemma_object_view(m: Vec<(String, Json)>)
    ensures
        Json::Object(m).view() == JsonV::Object(json_members(m@)),
{
    assert(Json::Object(m).view()->Object_0 =~= json_members(m@));
}

/// A value with the signs of floating zeros taken off.
pub open spec fn level(j: JsonV) -> JsonV
    decreases j,
{
    match j {
        JsonV::Number(n) => JsonV::Number(n.level()),
        JsonV::Array(v) => JsonV::Array(
            Seq::new(
                v.len(),
                |i: int|
                    if 0 <= i < v.len() {
                        level(v[i])
                    } else {
                        JsonV::Null
                    },
            ),
        ),
        JsonV::Object(m) => JsonV::Object(
            Seq::new(
                m.len(),
                |i: int|
                    if 0 <= i < m.len() {
                        (m[i].0, level(m[i].1))
                    } else {
                        (Seq::empty(), JsonV::Null)
                    },
            ),
        ),
        _ => j,
    }
}

/// Equal values: they differ at most in the signs of floating zeros.
pub open spec fn same_json(a: JsonV, b: JsonV) -> bool {
    level(a) == level(b)
}

spec fn levels(v: Seq<JsonV>) -> Seq<JsonV> {
    v.map_values(|j: JsonV| level(j))
}

spec fn member_levels(m: Seq<(Seq<char>, JsonV)>) -> Seq<(Seq<char>, JsonV)> {
    m.map_values(|p: (Seq<char>, JsonV)| (p.0, level(p.1)))
}

proof fn lemma_level_array(v: Seq<JsonV>)
    ensures
        level(JsonV::Array(v)) == JsonV::Array(levels(v)),
{
    assert(level(JsonV::Array(v))->Array_0 =~= levels(v));
}

proof fn lemma_level_object(m: Seq<(Seq<char>, JsonV)>)
    ensures
        level(JsonV::Object(m)) == JsonV::Object(member_levels(m)),
{
    assert(level(JsonV::Object(m))->Object_0 =~= member_levels(m));
}

impl Json {
    /// A second value that holds the same.
    pub fn duplicate(&self) -> (r: Json)
        ensures
            r@ == self@,
        decreases self,
    {
        match self {
            Json::Null => Json::Null,
            Json::Bool(b) => Json::Bool(*b),
            Json::Number(n) => Json::Number(*n),
            Json::Text(t) => Json::Text(t.clone()),
            Json::Array(v) => {
                let mut out: Vec<Json> = Vec::new();
                let mut i: usize = 0;
                proof {
                    lemma_array_view(*v);
                }
                while i < v.len()
                    invariant
                        i <= v@.len(),
                        self == Json::Array(*v),
                        self@ == JsonV::Array(json_seq(v@)),
                        json_seq(out@) == json_seq(v@).take(i as int),
                    decreases v@.len() - i,
                {
                    let ghost before = out@;
                    assert(decreases_to!(self => v@[i as int]));
                    out.push(v[i].duplicate());
                    assert(json_seq(out@) =~= json_seq(before).push(v@[i as int]@));
                    assert(json_seq(out@) =~= json_seq(v@).take(i as int + 1));
                    i = i + 1;
                }
                proof {
                    assert(json_seq(out@) =~= json_seq(v@));
                    lemma_array_view(*v);
                    lemma_array_view(out);
                }
                Json::Array(out)
            },
            Json::Object(m) => {
                let mut out: Vec<(String, Json)> = Vec::new();
                let mut i: usize = 0;
                proof {
                    lemma_object_view(*m);
                }
                while i < m.len()
                    invariant
                        i <= m@.len(),
                        self == Json::Object(*m),
                        self@ == JsonV::Object(json_members(m@)),
                        json_members(out@) == json_members(m@).take(i as int),
                    decreases m@.len() - i,
                {
                    let ghost before = out@;
                    assert(decreases_to!(self => m@[i as int].1));
                    out.push((m[i].0.clone(), m[i].1.duplicate()));
                    assert(json_members(out@) =~= json_members(before).push(
                        (m@[i as int].0@, m@[i as int].1@),
                    ));
                    assert(json_members(out@) =~= json_members(m@).take(i as int + 1));
                    i = i + 1;
                }
                proof {
                    assert(json_members(out@) =~= json_members(m@));
                    lemma_object_view(*m);
                    lemma_object_view(out);
                }
                Json::Object(out)
            },
        }
    }

    /// Whether two values hold the same, down to the sign of a zero.
    pub fn identical(&self, other: &Json) -> (r: bool)
        ensures
            r <==> self@ == other@,
        decreases self,
    {
        match (self, other) {
            (Json::Null, Json::Null) => true,
            (Json::Bool(a), Json::Bool(b)) => *a == *b,
            (Json::Number(a), Json::Number(b)) => *a == *b,
            (Json::Text(a), Json::Text(b)) => same_text(a.as_str(), b.as_str()),
            (Json::Array(a), Json::Array(b)) => {
                proof {
                    lemma_array_view(*a);
                    lemma_array_view(*b);
                }
                if a.len() != b.len() {
                    assert(json_seq(a@).len() != json_seq(b@).len());
                    return false;
                }
                let mut i: usize = 0;
                while i < a.len()
                    invariant
                        i <= a@.len(),
                        a@.len() == b@.len(),
                        self == Json::Array(*a),
                        self@ == JsonV::Array(json_seq(a@)),
                        other@ == JsonV::Array(json_seq(b@)),
                        forall|j: int| 0 <= j < i ==> (#[trigger] a@[j])@ == b@[j]@,
                    decreases a@.len() - i,
                {
                    assert(decreases_to!(self => a@[i as int]));
                    if !a[i].identical(&b[i]) {
                        assert(json_seq(a@)[i as int] != json_seq(b@)[i as int]);
                        return false;
                    }
                    i = i + 1;
                }
                assert(json_seq(a@) =~= json_seq(b@));
                true
            },
            (Json::Object(a), Json::Object(b)) => {
                proof {
                    lemma_object_view(*a);
                    lemma_object_view(*b);
                }
                if a.len() != b.len() {
                    assert(json_members(a@).len() != json_members(b@).len());
                    return false;
                }
                let mut i: usize = 0;
                while i < a.len()
                    invariant
                        i <= a@.len(),
                        a@.len() == b@.len(),
                        self == Json::Object(*a),
                        self@ == JsonV::Object(json_members(a@)),
                        other@ == JsonV::Object(json_members(b@)),
                        forall|j: int|
                            0 <= j < i ==> (#[trigger] a@[j]).0@ == b@[j].0@ && a@[j].1@
                                == b@[j].1@,
                    decreases a@.len() - i,
                {
                    assert(decreases_to!(self => a@[i as int].1));
                    if !same_text(a[i].0.as_str(), b[i].0.as_str()) {
                        assert(json_members(a@)[i as int] != json_members(b@)[i as int]);
                        return false;
                    }
                    if !a[i].1.identical(&b[i].1) {
                        assert(json_members(a@)[i as int] != json_members(b@)[i as int]);
                        return false;
                    }
                    i = i + 1;
                }
                assert(json_members(a@) =~= json_members(b@));
                true
            },
            _ => false,
        }
    }

    /// Whether two values are equal.
    pub fn same(&self, other: &Json) -> (r: bool)
        ensures
            r <==> same_json(self@, other@),
        decreases self,
    {
        match (self, other) {
            (Json::Null, Json::Null) => true,
            (Json::Bool(a), Json::Bool(b)) => *a == *b,
            (Json::Number(a), Json::Number(b)) => a.equals(b),
            (Json::Text(a), Json::Text(b)) => same_text(a.as_str(), b.as_str()),
            (Json::Array(a), Json::Array(b)) => {
                proof {
                    lemma_array_view(*a);
                    lemma_array_view(*b);
                    lemma_level_array(json_seq(a@));
                    lemma_level_array(json_seq(b@));
                }
                if a.len() != b.len() {
                    assert(levels(json_seq(a@)).len() != levels(json_seq(b@)).len());
                    return false;
                }
                let mut i: usize = 0;
                while i < a.len()
                    invariant
                        i <= a@.len(),
                        a@.len() == b@.len(),
                        self == Json::Array(*a),
                        level(self@) == JsonV::Array(levels(json_seq(a@))),
                        level(other@) == JsonV::Array(levels(json_seq(b@))),
                        forall|j: int| 0 <= j < i ==> same_json((#[trigger] a@[j])@, b@[j]@),
                    decreases a@.len() - i,
                {
                    assert(decreases_to!(self => a@[i as int]));
                    if !a[i].same(&b[i]) {
                        assert(levels(json_seq(a@))[i as int] != levels(json_seq(b@))[i as int]);
                        return false;
                    }
                    i = i + 1;
                }
                assert(levels(json_seq(a@)) =~= levels(json_seq(b@)));
                true
            },
            (Json::Object(a), Json::Object(b)) => {
                proof {
                    lemma_object_view(*a);
                    lemma_object_view(*b);
                    lemma_level_object(json_members(a@));
                    lemma_level_object(json_members(b@));
                }
                if a.len() != b.len() {
                    assert(member_levels(json_members(a@)).len() != member_levels(json_members(b@)).len());
                    return false;
                }
                let mut i: usize = 0;
                while i < a.len()
                    invariant
                        i <= a@.len(),
                        a@.len() == b@.len(),
                        self == Json::Object(*a),
                        level(self@) == JsonV::Object(member_levels(json_members(a@))),
                        level(other@) == JsonV::Object(member_levels(json_members(b@))),
                        forall|j: int|
                            0 <= j < i ==> (#[trigger] a@[j]).0@ == b@[j].0@ && same_json(
                                a@[j].1@,
                                b@[j].1@,
                            ),
                    decreases a@.len() - i,
                {
                    assert(decreases_to!(self => a@[i as int].1));
                    if !same_text(a[i].0.as_str(), b[i].0.as_str()) {
                        assert(member_levels(json_members(a@))[i as int] != member_levels(json_members(b@))[i as int]);
                        return false;
                    }
                    if !a[i].1.same(&b[i].1) {
                        assert(member_levels(json_members(a@))[i as int] != member_levels(json_members(b@))[i as int]);
                        return false;
                    }
                    i = i + 1;
                }
                assert(member_levels(json_members(a@)) =~= member_levels(json_members(b@)));
                true
            },
            _ => false,
        }
    }
}

/// The position of the first member of that name, or the number of members.
pub open spec fn member_at(m: Seq<(Seq<char>, JsonV)>, name: Seq<char>, from: int) -> int
    decreases m.len() - from,
{
    if from < 0 || from >= m.len() {
        m.len() as int
    } else if m[from].0 == name {
        from
    } else {
        member_at(m, name, from + 1)
    }
}

/// The member of that name.
pub open spec fn member(j: JsonV, name: Seq<char>) -> Option<JsonV> {
    match j {
        JsonV::Object(m) => if member_at(m, name, 0) < m.len() {
            Some(m[member_at(m, name, 0)].1)
        } else {
            None
        },
        _ => None,
    }
}

/// Where a member of that name goes: before the first one whose name comes after it.
pub open spec fn member_slot(m: Seq<(Seq<char>, JsonV)>, name: Seq<char>, from: int) -> int
    decreases m.len() - from,
{
    if from < 0 || from >= m.len() {
        m.len() as int
    } else if text_lt(name, m[from].0) {
        from
    } else {
        member_slot(m, name, from + 1)
    }
}

/// The members after one is set: it takes the place of the member of its name, or its own place in
/// the order.
pub open spec fn with_member(
    m: Seq<(Seq<char>, JsonV)>,
    name: Seq<char>,
    value: JsonV,
) -> Seq<(Seq<char>, JsonV)> {
    let at = member_at(m, name, 0);
    if at < m.len() {
        m.update(at, (name, value))
    } else {
        m.insert(member_slot(m, name, 0), (name, value))
    }
}

fn find_member(m: &Vec<(String, Json)>, name: &str) -> (r: usize)
    ensures
        r == member_at(json_members(m@), name@, 0),
        r <= m@.len(),
        r < m@.len() ==> m@[r as int].0@ == name@,
{
    let mut i: usize = 0;
    while i < m.len()
        invariant
            i <= m@.len(),
            member_at(json_members(m@), name@, 0) == member_at(json_members(m@), name@, i as int),
        decreases m@.len() - i,
    {
        if same_text(m[i].0.as_str(), name) {
            assert(json_members(m@)[i as int].0 == name@);
            return i;
        }
        assert(json_members(m@)[i as int].0 != name@);
        i = i + 1;
    }
    i
}

fn find_slot(m: &Vec<(String, Json)>, name: &str) -> (r: usize)
    ensures
        r == member_slot(json_members(m@), name@, 0),
        r <= m@.len(),
{
    let mut i: usize = 0;
    while i < m.len()
        invariant
            i <= m@.len(),
            member_slot(json_members(m@), name@, 0) == member_slot(
                json_members(m@),
                name@,
                i as int,
            ),
        decreases m@.len() - i,
    {
        match text_standing(name, m[i].0.as_str()) {
            Standing::Below => {
                assert(text_lt(name@, json_members(m@)[i as int].0));
                return i;
            },
            _ => {},
        }
        assert(!text_lt(name@, json_members(m@)[i as int].0));
        i = i + 1;
    }
    i
}

impl Json {
    /// The member of that name, if the value is an object that has one.
    pub fn get(&self, name: &str) -> (r: Option<&Json>)
        ensures
            match r {
                Some(j) => member(self@, name@) == Some(j@),
                None => member(self@, name@) is None,
            },
    {
        match self {
            Json::Object(m) => {
                let at = find_member(m, name);
                proof {
                    lemma_object_view(*m);
                }
                if at < m.len() {
                    assert(json_members(m@)[at as int] == (m@[at as int].0@, m@[at as int].1@));
                    Some(&m[at].1)
                } else {
                    None
                }
            },
            _ => None,
        }
    }
}

/// Sets a member.
pub fn set_member(m: &mut Vec<(String, Json)>, name: String, value: Json)
    ensures
        json_members(final(m)@) == with_member(json_members(old(m)@), name@, value@),
{
    let at = find_member(m, name.as_str());
    if at < m.len() {
        m.set(at, (name, value));
        assert(json_members(m@) =~= with_member(json_members(old(m)@), name@, value@));
    } else {
        let slot = find_slot(m, name.as_str());
        m.insert(slot, (name, value));
        assert(json_members(m@) =~= with_member(json_members(old(m)@), name@, value@));
    }
}

/// One step of a pointer, with `~0` and `~1` read as `~` and `/`. Any other `~` is malformed.
pub open spec fn decoded_token(s: Seq<char>, from: int, done: Seq<char>) -> Option<Seq<char>>
    decreases s.len() - from,
{
    if from < 0 || from >= s.len() {
        Some(done)
    } else if s[from] != '~' {
        decoded_token(s, from + 1, done.push(s[from]))
    } else if from + 1 < s.len() && s[from + 1] == '0' {
        decoded_token(s, from + 2, done.push('~'))
    } else if from + 1 < s.len() && s[from + 1] == '1' {
        decoded_token(s, from + 2, done.push('/'))
    } else {
        None
    }
}

pub open spec fn decoded_tokens(p: Seq<Seq<char>>) -> Option<Seq<Seq<char>>>
    decreases p.len(),
{
    if p.len() == 0 {
        Some(Seq::empty())
    } else {
        match (decoded_tokens(p.drop_last()), decoded_token(p.last(), 0, Seq::empty())) {
            (Some(done), Some(t)) => Some(done.push(t)),
            _ => None,
        }
    }
}

/// The steps of a pointer: none for the empty pointer; otherwise it starts with `/`.
pub open spec fn tokens_of(pointer: Seq<char>) -> Option<Seq<Seq<char>>> {
    if pointer.len() == 0 {
        Some(Seq::empty())
    } else if pointer[0] != '/' {
        None
    } else {
        decoded_tokens(pieces(pointer.skip(1), '/', 0))
    }
}

fn decode_token(token: &str) -> (r: Option<String>)
    ensures
        match r {
            Some(t) => decoded_token(token@, 0, Seq::empty()) == Some(t@),
            None => decoded_token(token@, 0, Seq::empty()) is None,
        },
{
    let chars = chars_of(token);
    let mut out = String::new();
    let mut i: usize = 0;
    while i < chars.len()
        invariant
            chars@ == token@,
            i <= chars@.len(),
            decoded_token(token@, 0, Seq::empty()) == decoded_token(token@, i as int, out@),
        decreases chars@.len() - i,
    {
        let c = chars[i];
        if c != '~' {
            out.push(c);
            i = i + 1;
        } else if i + 1 < chars.len() && chars[i + 1] == '0' {
            out.push('~');
            i = i + 2;
        } else if i + 1 < chars.len() && chars[i + 1] == '1' {
            out.push('/');
            i = i + 2;
        } else {
            return None;
        }
    }
    Some(out)
}

proof fn lemma_decoded_prefix(p: Seq<Seq<char>>, i: int)
    requires
        0 <= i < p.len(),
        decoded_token(p[i], 0, Seq::empty()) is None,
    ensures
        decoded_tokens(p) is None,
    decreases p.len(),
{
    if i < p.len() - 1 {
        assert(p.drop_last()[i] == p[i]);
        lemma_decoded_prefix(p.drop_last(), i);
    }
}

/// Splits a pointer into its steps.
pub fn pointer_tokens(pointer: &str) -> (r: Result<Vec<String>, ()>)
    ensures
        match r {
            Ok(t) => tokens_of(pointer@) == Some(texts(t@)),
            Err(_) => tokens_of(pointer@) is None,
        },
{
    let chars = chars_of(pointer);
    if chars.len() == 0 {
        let none: Vec<String> = Vec::new();
        assert(texts(none@) =~= Seq::<Seq<char>>::empty());
        return Ok(none);
    }
    if chars[0] != '/' {
        return Err(());
    }
    let rest = crate::text::text_of(&chars, 1, chars.len());
    assert(rest@ =~= pointer@.skip(1));
    let parts = split(rest.as_str(), '/');
    let mut out: Vec<String> = Vec::new();
    let mut i: usize = 0;
    assert(texts(parts@).take(0) =~= Seq::<Seq<char>>::empty());
    assert(texts(out@) =~= Seq::<Seq<char>>::empty());
    while i < parts.len()
        invariant
            i <= parts@.len(),
            pointer@.len() > 0,
            pointer@[0] == '/',
            texts(parts@) == pieces(pointer@.skip(1), '/', 0),
            decoded_tokens(texts(parts@).take(i as int)) == Some(texts(out@)),
        decreases parts@.len() - i,
    {
        let ghost p = texts(parts@);
        match decode_token(parts[i].as_str()) {
            None => {
                proof {
                    lemma_decoded_prefix(p, i as int);
                }
                return Err(());
            },
            Some(t) => {
                proof {
                    assert(p.take(i as int + 1).drop_last() =~= p.take(i as int));
                    assert(p.take(i as int + 1).last() == parts@[i as int]@);
                }
                let ghost before = out@;
                out.push(t);
                assert(texts(out@) =~= texts(before).push(t@));
            },
        }
        i = i + 1;
    }
    assert(texts(parts@).take(parts@.len() as int) =~= texts(parts@));
    Ok(out)
}

/// The array position that a step names.
pub open spec fn step_index(token: Seq<char>, len: nat) -> Option<int> {
    match parsed_unsigned(token, usize::MAX as nat) {
        Some(n) => if n < len {
            Some(n as int)
        } else {
            None
        },
        None => None,
    }
}

fn array_step(token: &str, len: usize) -> (r: Option<usize>)
    ensures
        match r {
            Some(i) => step_index(token@, len as nat) == Some(i as int) && i < len,
            None => step_index(token@, len as nat) is None,
        },
{
    match parse_unsigned(token, usize::MAX as u64) {
        Some(n) => {
            let i: usize = n as usize;
            if i < len {
                Some(i)
            } else {
                None
            }
        },
        None => None,
    }
}

/// The canonical spelling of an array position: its numeral, which has no sign and no leading zero.
pub open spec fn plain_index(token: Seq<char>) -> bool {
    &&& token.len() > 0
    &&& token[0] != '+'
    &&& (token[0] == '0' ==> token.len() == 1)
}

/// The value that a pointer's steps lead to. An array step must be spelled canonically.
pub open spec fn pointed(j: JsonV, tokens: Seq<Seq<char>>) -> Option<JsonV>
    decreases tokens.len(),
{
    if tokens.len() == 0 {
        Some(j)
    } else {
        match j {
            JsonV::Object(_) => match member(j, tokens[0]) {
                Some(k) => pointed(k, tokens.skip(1)),
                None => None,
            },
            JsonV::Array(v) => if !plain_index(tokens[0]) {
                None
            } else {
                match step_index(tokens[0], v.len()) {
                    Some(i) => pointed(v[i], tokens.skip(1)),
                    None => None,
                }
            },
            _ => None,
        }
    }
}

impl Json {
    /// The value that the steps `from ..` lead to.
    pub fn follow(&self, tokens: &Vec<String>, from: usize) -> (r: Option<&Json>)
        requires
            from <= tokens@.len(),
        ensures
            match r {
                Some(j) => pointed(self@, texts(tokens@).skip(from as int)) == Some(j@),
                None => pointed(self@, texts(tokens@).skip(from as int)) is None,
            },
        decreases tokens@.len() - from,
    {
        let ghost rest = texts(tokens@).skip(from as int);
        if from == tokens.len() {
            return Some(self);
        }
        assert(rest[0] == tokens@[from as int]@);
        assert(rest.skip(1) =~= texts(tokens@).skip(from as int + 1));
        match self {
            Json::Object(m) => {
                proof {
                    lemma_object_view(*m);
                }
                match self.get(tokens[from].as_str()) {
                    Some(k) => k.follow(tokens, from + 1),
                    None => None,
                }
            },
            Json::Array(v) => {
                proof {
                    lemma_array_view(*v);
                }
                let token = chars_of(tokens[from].as_str());
                if token.len() == 0 || token[0] == '+' || (token[0] == '0' && token.len() != 1) {
                    return None;
                }
                match array_step(tokens[from].as_str(), v.len()) {
                    Some(i) => {
                        assert(json_seq(v@)[i as int] == v@[i as int]@);
                        v[i].follow(tokens, from + 1)
                    },
                    None => None,
                }
            },
            _ => None,
        }
    }
}

/// What an edit does to the place that its pointer names.
#[derive(Debug)]
pub enum EntityEditOperation {
    Assign(Json),
    Remove,
}

pub ghost enum EditV {
    Assign(JsonV),
    Remove,
}

impl EntityEditOperation {
    pub open spec fn view(&self) -> EditV {
        match self {
            EntityEditOperation::Assign(j) => EditV::Assign(j@),
            EntityEditOperation::Remove => EditV::Remove,
        }
    }
}

/// A document after an edit along `tokens`, which are not empty: the way to the last step must exist;
/// the last step sets or removes an object member, replaces an array element or removes one.
pub open spec fn edited(j: JsonV, tokens: Seq<Seq<char>>, op: EditV) -> Option<JsonV>
    decreases tokens.len(),
{
    if tokens.len() == 0 {
        None
    } else if tokens.len() == 1 {
        match (j, op) {
            (JsonV::Object(m), EditV::Assign(v)) => Some(
                JsonV::Object(with_member(m, tokens[0], v)),
            ),
            (JsonV::Object(m), EditV::Remove) => if member_at(m, tokens[0], 0) < m.len() {
                Some(JsonV::Object(m.remove(member_at(m, tokens[0], 0))))
            } else {
                None
            },
            (JsonV::Array(a), EditV::Assign(v)) => match step_index(tokens[0], a.len()) {
                Some(i) => Some(JsonV::Array(a.update(i, v))),
                None => None,
            },
            (JsonV::Array(a), EditV::Remove) => match step_index(tokens[0], a.len()) {
                Some(i) => Some(JsonV::Array(a.remove(i))),
                None => None,
            },
            _ => None,
        }
    } else {
        match j {
            JsonV::Object(m) => {
                let at = member_at(m, tokens[0], 0);
                if at < m.len() {
                    match edited(m[at].1, tokens.skip(1), op) {
                        Some(k) => Some(JsonV::Object(m.update(at, (m[at].0, k)))),
                        None => None,
                    }
                } else {
                    None
                }
            },
            JsonV::Array(a) => match step_index(tokens[0], a.len()) {
                Some(i) => match edited(a[i], tokens.skip(1), op) {
                    Some(k) => Some(JsonV::Array(a.update(i, k))),
                    None => None,
                },
                None => None,
            },
            _ => None,
        }
    }
}

/// What an edit makes of an optional document: the empty pointer sets or drops the whole document.
pub open spec fn edited_document(
    entity: Option<JsonV>,
    pointer: Seq<char>,
    op: EditV,
) -> Result<Option<JsonV>, ()> {
    match tokens_of(pointer) {
        None => Err(()),
        Some(tokens) => if tokens.len() == 0 {
            match op {
                EditV::Assign(v) => Ok(Some(v)),
                EditV::Remove => Ok(None),
            }
        } else {
            match entity {
                None => Err(()),
                Some(j) => match edited(j, tokens, op) {
                    Some(k) => Ok(Some(k)),
                    None => Err(()),
                },
            }
        },
    }
}

fn edit_along(
    value: Json,
    tokens: &Vec<String>,
    from: usize,
    operation: &EntityEditOperation,
) -> (r: Option<Json>)
    requires
        from < tokens@.len(),
    ensures
        match r {
            Some(j) => edited(value@, texts(tokens@).skip(from as int), operation@) == Some(j@),
            None => edited(value@, texts(tokens@).skip(from as int), operation@) is None,
        },
    decreases tokens@.len() - from,
{
    let ghost rest = texts(tokens@).skip(from as int);
    assert(rest[0] == tokens@[from as int]@);
    assert(rest.skip(1) =~= texts(tokens@).skip(from as int + 1));
    let leaf = from == tokens.len() - 1;
    match value {
        Json::Object(m) => {
            let mut m = m;
            proof {
                lemma_object_view(m);
            }
            let ghost before = json_members(m@);
            if leaf {
                match operation {
                    EntityEditOperation::Assign(v) => {
                        set_member(&mut m, tokens[from].clone(), v.duplicate());
                        proof {
                            lemma_object_view(m);
                        }
                        Some(Json::Object(m))
                    },
                    EntityEditOperation::Remove => {
                        let at = find_member(&m, tokens[from].as_str());
                        if at < m.len() {
                            m.remove(at);
                            proof {
                                lemma_object_view(m);
                                assert(json_members(m@) =~= before.remove(at as int));
                            }
                            Some(Json::Object(m))
                        } else {
                            None
                        }
                    },
                }
            } else {
                let at = find_member(&m, tokens[from].as_str());
                if at < m.len() {
                    assert(before[at as int] == (m@[at as int].0@, m@[at as int].1@));
                    let (name, inner) = m.remove(at);
                    match edit_along(inner, tokens, from + 1, operation) {
                        Some(k) => {
                            m.insert(at, (name, k));
                            proof {
                                lemma_object_view(m);
                                assert(json_members(m@) =~= before.update(
                                    at as int,
                                    (name@, k@),
                                ));
                            }
                            Some(Json::Object(m))
                        },
                        None => None,
                    }
                } else {
                    None
                }
            }
        },
        Json::Array(v) => {
            let mut v = v;
            proof {
                lemma_array_view(v);
            }
            let ghost before = json_seq(v@);
            match array_step(tokens[from].as_str(), v.len()) {
                None => None,
                Some(i) => {
                    if leaf {
                        match operation {
                            EntityEditOperation::Assign(x) => {
                                v.set(i, x.duplicate());
                                proof {
                                    lemma_array_view(v);
                                    assert(json_seq(v@) =~= before.update(i as int, x@));
                                }
                                Some(Json::Array(v))
                            },
                            EntityEditOperation::Remove => {
                                v.remove(i);
                                proof {
                                    lemma_array_view(v);
                                    assert(json_seq(v@) =~= before.remove(i as int));
                                }
                                Some(Json::Array(v))
                            },
                        }
                    } else {
                        assert(before[i as int] == v@[i as int]@);
                        let inner = v.remove(i);
                        match edit_along(inner, tokens, from + 1, operation) {
                            Some(k) => {
                                v.insert(i, k);
                                proof {
                                    lemma_array_view(v);
                                    assert(json_seq(v@) =~= before.update(i as int, k@));
                                }
                                Some(Json::Array(v))
                            },
                            None => None,
                        }
                    }
                },
            }
        },
        _ => None,
    }
}

/// An optional document by what it holds.
pub open spec fn opt_json(j: Option<Json>) -> Option<JsonV> {
    match j {
        Some(x) => Some(x@),
        None => None,
    }
}

/// Applies one edit to an optional document.
pub fn apply_entity_edit(
    entity: Option<Json>,
    pointer: &str,
    operation: &EntityEditOperation,
) -> (r: Result<Option<Json>, ()>)
    ensures
        match r {
            Ok(e) => edited_document(opt_json(entity), pointer@, operation@) == Ok::<
                Option<JsonV>,
                (),
            >(opt_json(e)),
            Err(_) => edited_document(opt_json(entity), pointer@, operation@) is Err,
        },
{
    match pointer_tokens(pointer) {
        Err(_) => Err(()),
        Ok(tokens) => {
            if tokens.len() == 0 {
                return match operation {
                    EntityEditOperation::Assign(v) => Ok(Some(v.duplicate())),
                    EntityEditOperation::Remove => Ok(None),
                };
            }
            match entity {
                None => Err(()),
                Some(j) => {
                    assert(texts(tokens@).skip(0) =~= texts(tokens@));
                    match edit_along(j, &tokens, 0, operation) {
                        Some(k) => Ok(Some(k)),
                        None => Err(()),
                    }
                },
            }
        },
    }
}

} // verus!
