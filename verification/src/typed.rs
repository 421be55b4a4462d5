//! Typed index values: how they are read from documents, compared and written back.

use crate::json::{Json, JsonNumber, JsonV, member};
use crate::order::{OrderKey, Standing, lemma_lt_asymmetric, text_lt, text_standing};
use crate::text::{all_digits, chars_of, digits_value, find_char, is_digit, next_of, parse_from, parse_signed, parsed_signed, pieces, same_text, split, text_of, texts};
use crate::types::{EngineError, EngineResult, ErrorV, IndexType, TypedV, TypedValue, UtcTimestamp, outcome, ts_lt};
use vstd::arithmetic::div_mod::lemma_fundamental_div_mod;
use vstd::arithmetic::div_mod::lemma_fundamental_div_mod_converse;
use vstd::prelude::*;

verus! {

/// Division that rounds towards zero.
pub open spec fn towards_zero(a: int, b: int) -> int {
    if a >= 0 {
        a / b
    } else {
        -((-a) / b)
    }
}

/// The day of a date in the proleptic Gregorian calendar, counted from the start of the epoch. Years
/// are counted from March, so that a leap day ends its year.
pub open spec fn civil_day(year: int, month: int, day: int) -> int {
    let y = if month <= 2 {
        year - 1
    } else {
        year
    };
    let m = if month > 2 {
        month - 3
    } else {
        month + 9
    };
    365 * y + y / 4 - y / 100 + y / 400 + towards_zero(153 * m + 2, 5) + day - 1 - 719468
}

pub(crate) fn floor_div(a: i128, b: i128) -> (r: i128)
    requires
        0 < b <= 0x1_0000_0000,
        -0x1_0000_0000_0000_0000_0000_0000 < a < 0x1_0000_0000_0000_0000_0000_0000,
    ensures
        r == a as int / b as int,
        -0x1_0000_0000_0000_0000_0000_0000 <= r <= 0x1_0000_0000_0000_0000_0000_0000,
{
    let ghost n = a as int;
    let ghost d = b as int;
    if a >= 0 {
        let q = (a as u128) / (b as u128);
        proof {
            lemma_fundamental_div_mod(n, d);
            assert(0 <= n / d <= n) by (nonlinear_arith)
                requires
                    n >= 0,
                    d > 0,
            ;
        }
        q as i128
    } else {
        let up = (-a) as u128;
        let q = (up + (b as u128 - 1)) / (b as u128);
        proof {
            let k = -n + d - 1;
            lemma_fundamental_div_mod(k, d);
            let p = k / d;
            assert(0 <= p <= k) by (nonlinear_arith)
                requires
                    k >= 0,
                    d > 0,
                    p == k / d,
            ;
            assert(p <= -n) by (nonlinear_arith)
                requires
                    k == -n + d - 1,
                    n < 0,
                    d > 0,
                    p == k / d,
            ;
            assert(n == -p * d + (d - 1 - k % d)) by (nonlinear_arith)
                requires
                    k == d * p + k % d,
                    k == -n + d - 1,
            ;
            lemma_fundamental_div_mod_converse(n, d, -p, d - 1 - k % d);
        }
        -(q as i128)
    }
}

/// The day of a date.
pub fn days_from_civil(year: i64, month: i64, day: i64) -> (r: i128)
    ensures
        r == civil_day(year as int, month as int, day as int),
        -0x1_0000_0000_0000_0000_0000 <= r <= 0x1_0000_0000_0000_0000_0000,
{
    let y: i128 = if month <= 2 {
        year as i128 - 1
    } else {
        year as i128
    };
    let m: i128 = if month > 2 {
        month as i128 - 3
    } else {
        month as i128 + 9
    };
    let era = floor_div(y, 400);
    let yoe = y - era * 400;
    proof {
        lemma_fundamental_div_mod(y as int, 400);
    }
    let k: i128 = 153 * m + 2;
    let before_month = if k >= 0 {
        floor_div(k, 5)
    } else {
        -floor_div(-k, 5)
    };
    let doy = before_month + day as i128 - 1;
    let by_four = floor_div(yoe, 4);
    let by_hundred = floor_div(yoe, 100);
    let doe = yoe * 365 + by_four - by_hundred + doy;
    era * 146097 + doe - 719468
}

/// The text of an instant without the mark that it is in universal time.
pub open spec fn without_zone(s: Seq<char>) -> Option<Seq<char>> {
    if s.len() > 0 && s.last() == 'Z' {
        Some(s.drop_last())
    } else if s.len() >= 6 && s.skip(s.len() - 6) == "+00:00"@ {
        Some(s.take(s.len() - 6))
    } else {
        None
    }
}

/// The nanoseconds that up to nine decimals stand for.
pub open spec fn nanos_of(frac: Seq<char>) -> Option<u32> {
    if 0 < frac.len() <= 9 && all_digits(frac) {
        Some((digits_value(frac) * ten_to((9 - frac.len()) as nat)) as u32)
    } else {
        None
    }
}

pub open spec fn ten_to(n: nat) -> nat
    decreases n,
{
    if n == 0 {
        1
    } else {
        10 * ten_to((n - 1) as nat)
    }
}

/// The seconds of a time of day, with their nanoseconds.
pub open spec fn seconds_of(s: Seq<char>) -> Option<(int, u32)> {
    let dot = next_of(s, '.', 0);
    if dot >= s.len() {
        match parsed_signed(s) {
            Some(n) => Some((n, 0)),
            None => None,
        }
    } else {
        match (parsed_signed(s.take(dot)), nanos_of(s.skip(dot + 1))) {
            (Some(n), Some(f)) => Some((n, f)),
            _ => None,
        }
    }
}

/// The day that a date names.
pub open spec fn day_of(date: Seq<char>) -> Option<int> {
    let p = pieces(date, '-', 0);
    if p.len() != 3 {
        None
    } else {
        match (parsed_signed(p[0]), parsed_signed(p[1]), parsed_signed(p[2])) {
            (Some(y), Some(m), Some(d)) => Some(civil_day(y, m, d)),
            _ => None,
        }
    }
}

/// The seconds since midnight that a time of day names.
pub open spec fn time_of(time: Seq<char>) -> Option<(int, u32)> {
    let p = pieces(time, ':', 0);
    if p.len() != 3 {
        None
    } else {
        match (parsed_signed(p[0]), parsed_signed(p[1]), seconds_of(p[2])) {
            (Some(h), Some(m), Some((s, n))) => Some((h * 3600 + m * 60 + s, n)),
            _ => None,
        }
    }
}

/// The instant that a text names. One outside the range of timestamps is none.
pub open spec fn instant_of(s: Seq<char>) -> Option<UtcTimestamp> {
    match without_zone(s) {
        None => None,
        Some(v) => {
            let t = next_of(v, 'T', 0);
            if t >= v.len() {
                None
            } else {
                match (day_of(v.take(t)), time_of(v.skip(t + 1))) {
                    (Some(d), Some((s, n))) => if i64::MIN <= d * 86400 + s <= i64::MAX {
                        Some(UtcTimestamp { seconds: (d * 86400 + s) as i64, nanoseconds: n })
                    } else {
                        None
                    },
                    _ => None,
                }
            }
        },
    }
}

fn parse_int(s: &String) -> (r: Option<i64>)
    ensures
        match r {
            Some(n) => parsed_signed(s@) == Some(n as int),
            None => parsed_signed(s@) is None,
        },
{
    let chars = chars_of(s.as_str());
    assert(chars@.subrange(0, chars@.len() as int) =~= s@);
    parse_signed(&chars, 0, chars.len())
}

proof fn lemma_digits_bound(s: Seq<char>)
    requires
        all_digits(s),
    ensures
        digits_value(s) < ten_to(s.len()),
    decreases s.len(),
{
    if s.len() > 0 {
        assert forall|i: int| 0 <= i < s.drop_last().len() implies is_digit(
            #[trigger] s.drop_last()[i],
        ) by {
            assert(s.drop_last()[i] == s[i]);
        }
        lemma_digits_bound(s.drop_last());
        assert(is_digit(s[s.len() - 1]));
    }
}

proof fn lemma_ten_sum(a: nat, b: nat)
    ensures
        ten_to(a) * ten_to(b) == ten_to(a + b),
    decreases a,
{
    if a > 0 {
        lemma_ten_sum((a - 1) as nat, b);
        assert(10 * ten_to((a - 1) as nat) * ten_to(b) == 10 * (ten_to((a - 1) as nat) * ten_to(b)))
            by (nonlinear_arith);
        assert((a + b - 1) as nat == (a - 1) as nat + b);
    } else {
        assert(1 * ten_to(b) == ten_to(b)) by (nonlinear_arith);
    }
}

fn parse_nanos(frac: &str) -> (r: Option<u32>)
    ensures
        r == nanos_of(frac@),
{
    let chars = chars_of(frac);
    let n = chars.len();
    if n == 0 || n > 9 {
        return None;
    }
    assert(chars@.subrange(0, n as int) =~= frac@);
    assert(ten_to(9) == 1_000_000_000) by {
        reveal_with_fuel(ten_to, 10);
    }
    let v = match parse_from(&chars, 0, n, 999_999_999) {
        Some(v) => v,
        None => {
            proof {
                if all_digits(frac@) {
                    lemma_digits_bound(frac@);
                    lemma_ten_sum(frac@.len(), (9 - frac@.len()) as nat);
                    let a = ten_to(frac@.len());
                    let b = ten_to((9 - frac@.len()) as nat);
                    lemma_ten_positive((9 - frac@.len()) as nat);
                    assert(a <= a * b) by (nonlinear_arith)
                        requires
                            b >= 1,
                    ;
                }
            }
            return None;
        },
    };
    let mut out: u64 = v;
    let mut k: usize = n;
    proof {
        lemma_digits_bound(frac@);
        assert(ten_to(0) == 1);
        assert(v * 1 == v);
    }
    while k < 9
        invariant
            n <= k <= 9,
            out == v * ten_to((k - n) as nat),
            v < ten_to(n as nat),
            ten_to(9) == 1_000_000_000,
        decreases 9 - k,
    {
        proof {
            let a = ten_to((k - n) as nat);
            assert(ten_to((k + 1 - n) as nat) == 10 * a);
            lemma_ten_sum(n as nat, (k + 1 - n) as nat);
            lemma_ten_sum((k + 1) as nat, (9 - (k + 1)) as nat);
            let t = ten_to(n as nat);
            let w = ten_to((9 - (k + 1)) as nat);
            lemma_ten_positive((9 - (k + 1)) as nat);
            assert(v * (10 * a) == 10 * (v * a)) by (nonlinear_arith);
            assert(v * (10 * a) <= t * (10 * a)) by (nonlinear_arith)
                requires
                    v < t,
                    a >= 0,
            ;
            assert(t * (10 * a) <= t * (10 * a) * w) by (nonlinear_arith)
                requires
                    w >= 1,
                    t >= 0,
                    a >= 0,
            ;
        }
        out = out * 10;
        k = k + 1;
    }
    proof {
        let a = ten_to((9 - n) as nat);
        lemma_ten_sum(n as nat, (9 - n) as nat);
        lemma_ten_positive((9 - n) as nat);
        let t = ten_to(n as nat);
        assert(v * a < t * a) by (nonlinear_arith)
            requires
                v < t,
                a >= 1,
        ;
    }
    Some(out as u32)
}

proof fn lemma_ten_positive(n: nat)
    ensures
        ten_to(n) >= 1,
    decreases n,
{
    if n > 0 {
        lemma_ten_positive((n - 1) as nat);
    }
}

fn parse_seconds(s: &String) -> (r: Option<(i64, u32)>)
    ensures
        (match r {
            Some((n, f)) => Some((n as int, f)),
            None => None,
        }) == seconds_of(s@),
{
    let chars = chars_of(s.as_str());
    let dot = find_char(&chars, '.', 0);
    if dot >= chars.len() {
        return match parse_int(s) {
            Some(n) => Some((n, 0)),
            None => None,
        };
    }
    assert(chars@.subrange(0, dot as int) =~= s@.take(dot as int));
    let whole = match parse_signed(&chars, 0, dot) {
        Some(n) => n,
        None => return None,
    };
    let frac = text_of(&chars, dot + 1, chars.len());
    assert(frac@ =~= s@.skip(dot as int + 1));
    match parse_nanos(frac.as_str()) {
        Some(f) => Some((whole, f)),
        None => None,
    }
}

fn parse_day(date: &String) -> (r: Option<i128>)
    ensures
        match r {
            Some(d) => day_of(date@) == Some(d as int) && -0x1_0000_0000_0000_0000_0000 <= d
                <= 0x1_0000_0000_0000_0000_0000,
            None => day_of(date@) is None,
        },
{
    let p = split(date.as_str(), '-');
    assert(texts(p@).len() == p@.len());
    if p.len() != 3 {
        return None;
    }
    assert(texts(p@)[0] == p@[0]@ && texts(p@)[1] == p@[1]@ && texts(p@)[2] == p@[2]@);
    match (parse_int(&p[0]), parse_int(&p[1]), parse_int(&p[2])) {
        (Some(y), Some(m), Some(d)) => Some(days_from_civil(y, m, d)),
        _ => None,
    }
}

fn parse_time(time: &String) -> (r: Option<(i128, u32)>)
    ensures
        match r {
            Some((s, n)) => time_of(time@) == Some((s as int, n)) && -0x1_0000_0000_0000_0000_0000
                <= s <= 0x1_0000_0000_0000_0000_0000,
            None => time_of(time@) is None,
        },
{
    let p = split(time.as_str(), ':');
    assert(texts(p@).len() == p@.len());
    if p.len() != 3 {
        return None;
    }
    assert(texts(p@)[0] == p@[0]@ && texts(p@)[1] == p@[1]@ && texts(p@)[2] == p@[2]@);
    match (parse_int(&p[0]), parse_int(&p[1]), parse_seconds(&p[2])) {
        (Some(h), Some(m), Some((s, n))) => Some(
            (h as i128 * 3600 + m as i128 * 60 + s as i128, n),
        ),
        _ => None,
    }
}

fn is_zero_offset(chars: &Vec<char>, from: usize) -> (r: bool)
    requires
        from + 6 == chars@.len(),
    ensures
        r == (chars@.skip(from as int) == "+00:00"@),
{
    proof {
        reveal_strlit("+00:00");
        let tail = chars@.skip(from as int);
        assert(tail == "+00:00"@ <==> (tail[0] == '+' && tail[1] == '0' && tail[2] == '0' && tail[3]
            == ':' && tail[4] == '0' && tail[5] == '0')) by {
            if tail[0] == '+' && tail[1] == '0' && tail[2] == '0' && tail[3] == ':' && tail[4] == '0'
                && tail[5] == '0' {
                assert(tail =~= "+00:00"@);
            }
        }
    }
    let n = chars.len();
    assert(from + 6 == n);
    chars[from] == '+' && chars[from + 1] == '0' && chars[from + 2] == '0' && chars[from + 3] == ':'
        && chars[from + 4] == '0' && chars[from + 5] == '0'
}

/// Reads an instant in universal time.
pub fn parse_utc_timestamp(value: &str) -> (r: EngineResult<UtcTimestamp>)
    ensures
        outcome(r) == (match instant_of(value@) {
            Some(t) => Ok::<UtcTimestamp, ErrorV>(t),
            None => Err(ErrorV::Invalid("typed index value is not a valid datetime"@)),
        }),
{
    let chars = chars_of(value);
    let n = chars.len();
    let end = if n > 0 && chars[n - 1] == 'Z' {
        n - 1
    } else if n >= 6 && is_zero_offset(&chars, n - 6) {
        n - 6
    } else {
        return Err(EngineError::Invalid("typed index value is not a valid datetime"));
    };
    let ghost v = without_zone(value@)->Some_0;
    let body = text_of(&chars, 0, end);
    assert(body@ =~= v);
    let inner = chars_of(body.as_str());
    let t = find_char(&inner, 'T', 0);
    if t >= inner.len() {
        return Err(EngineError::Invalid("typed index value is not a valid datetime"));
    }
    let date = text_of(&inner, 0, t);
    let time = text_of(&inner, t + 1, inner.len());
    assert(date@ =~= v.take(t as int));
    assert(time@ =~= v.skip(t as int + 1));
    match (parse_day(&date), parse_time(&time)) {
        (Some(d), Some((s, nanoseconds))) => {
            let seconds = d * 86400 + s;
            if seconds < -0x8000_0000_0000_0000 || seconds > 0x7fff_ffff_ffff_ffff {
                return Err(EngineError::Invalid("typed index value is not a valid datetime"));
            }
            Ok(UtcTimestamp { seconds: seconds as i64, nanoseconds })
        },
        _ => Err(EngineError::Invalid("typed index value is not a valid datetime")),
    }
}

/// The value that a JSON value stands for under a type.
pub open spec fn typed_of_json(value: JsonV, index_type: IndexType) -> Result<TypedV, ErrorV> {
    let misfit = Err(ErrorV::Invalid("typed index value is not valid for declared type"@));
    match (index_type, value) {
        (IndexType::String, JsonV::Text(t)) => Ok(TypedV::String(t)),
        (IndexType::Integer, JsonV::Number(n)) => match n.integer() {
            Some(v) => Ok(TypedV::Integer(v)),
            None => misfit,
        },
        (IndexType::Float, JsonV::Number(n)) => Ok(TypedV::Float(number_float(n))),
        (IndexType::Boolean, JsonV::Bool(b)) => Ok(TypedV::Bool(b)),
        (IndexType::Datetime, JsonV::Text(t)) => match instant_of(t) {
            Some(x) => Ok(TypedV::DateTime(x)),
            None => Err(ErrorV::Invalid("typed index value is not a valid datetime"@)),
        },
        (IndexType::Datetime, JsonV::Number(n)) => match n.integer() {
            Some(v) => Ok(TypedV::DateTime(UtcTimestamp { seconds: v, nanoseconds: 0 })),
            None => misfit,
        },
        _ => misfit,
    }
}

/// The value of a field of a document. A missing field and a null have none.
pub open spec fn field_value(entity: JsonV, field: Seq<char>, index_type: IndexType) -> Result<
    Option<TypedV>,
    ErrorV,
> {
    if !(entity is Object) {
        Err(ErrorV::Invalid("typed index entity is not an object"@))
    } else {
        match member(entity, field) {
            None => Ok(None),
            Some(JsonV::Null) => Ok(None),
            Some(v) => match typed_of_json(v, index_type) {
                Ok(t) => Ok(Some(t)),
                Err(e) => Err(e),
            },
        }
    }
}

pub open spec fn typed_outcome(r: EngineResult<TypedValue>) -> Result<TypedV, ErrorV> {
    match r {
        Ok(v) => Ok(v@),
        Err(e) => Err(e@),
    }
}

pub open spec fn opt_typed_outcome(r: EngineResult<Option<TypedValue>>) -> Result<
    Option<TypedV>,
    ErrorV,
> {
    match r {
        Ok(Some(v)) => Ok(Some(v@)),
        Ok(None) => Ok(None),
        Err(e) => Err(e@),
    }
}

fn type_json(value: &Json, index_type: IndexType) -> (r: EngineResult<TypedValue>)
    ensures
        typed_outcome(r) == typed_of_json(value@, index_type),
{
    match (index_type, value) {
        (IndexType::String, Json::Text(t)) => Ok(TypedValue::String(t.clone())),
        (IndexType::Integer, Json::Number(n)) => match n.as_i64() {
            Some(v) => Ok(TypedValue::Integer(v)),
            None => Err(EngineError::Invalid("typed index value is not valid for declared type")),
        },
        (IndexType::Float, Json::Number(n)) => Ok(TypedValue::Float(number_float_bits(n))),
        (IndexType::Boolean, Json::Bool(b)) => Ok(TypedValue::Bool(*b)),
        (IndexType::Datetime, Json::Text(t)) => match parse_utc_timestamp(t.as_str()) {
            Ok(x) => Ok(TypedValue::DateTime(x)),
            Err(e) => Err(e),
        },
        (IndexType::Datetime, Json::Number(n)) => match n.as_i64() {
            Some(v) => Ok(TypedValue::DateTime(UtcTimestamp { seconds: v, nanoseconds: 0 })),
            None => Err(EngineError::Invalid("typed index value is not valid for declared type")),
        },
        _ => Err(EngineError::Invalid("typed index value is not valid for declared type")),
    }
}

/// Reads the value of a field of a document.
pub fn typed_value_for_field(entity: &Json, field: &str, index_type: IndexType) -> (r: EngineResult<
    Option<TypedValue>,
>)
    ensures
        opt_typed_outcome(r) == field_value(entity@, field@, index_type),
{
    match entity {
        Json::Object(_) => {},
        _ => return Err(EngineError::Invalid("typed index entity is not an object")),
    }
    match entity.get(field) {
        None => Ok(None),
        Some(Json::Null) => Ok(None),
        Some(v) => match type_json(v, index_type) {
            Ok(t) => Ok(Some(t)),
            Err(e) => Err(e),
        },
    }
}

/// The type of a value.
pub open spec fn type_of(v: TypedV) -> IndexType {
    match v {
        TypedV::String(_) => IndexType::String,
        TypedV::Integer(_) => IndexType::Integer,
        TypedV::Float(_) => IndexType::Float,
        TypedV::Bool(_) => IndexType::Boolean,
        TypedV::DateTime(_) => IndexType::Datetime,
    }
}

pub fn type_of_value(v: &TypedValue) -> (r: IndexType)
    ensures
        r == type_of(v@),
{
    match v {
        TypedValue::String(_) => IndexType::String,
        TypedValue::Integer(_) => IndexType::Integer,
        TypedValue::Float(_) => IndexType::Float,
        TypedValue::Bool(_) => IndexType::Boolean,
        TypedValue::DateTime(_) => IndexType::Datetime,
    }
}

/// A filter's value, if it is of the declared type.
pub fn typed_value_from_filter_value(value: &TypedValue, index_type: IndexType) -> (r: EngineResult<
    TypedValue,
>)
    ensures
        typed_outcome(r) == (if type_of(value@) == index_type {
            Ok::<TypedV, ErrorV>(value@)
        } else {
            Err(ErrorV::Invalid("typed index value is not valid for declared type"@))
        }),
{
    if type_of_value(value) == index_type {
        Ok(value.duplicate())
    } else {
        Err(EngineError::Invalid("typed index value is not valid for declared type"))
    }
}

/// A binary floating-point value by its bits: sign and magnitude.
pub open spec fn float_key(bits: u64) -> int {
    if bits >= 0x8000_0000_0000_0000 {
        -(bits - 0x8000_0000_0000_0000)
    } else {
        bits as int
    }
}

/// The bits stand for no number.
pub open spec fn float_nan(bits: u64) -> bool {
    float_key(bits) > 0x7ff0_0000_0000_0000 || float_key(bits) < -0x7ff0_0000_0000_0000
}

/// The bits stand for a number that is not infinite.
pub open spec fn float_finite(bits: u64) -> bool {
    -0x7ff0_0000_0000_0000 < float_key(bits) < 0x7ff0_0000_0000_0000
}

pub(crate) fn key_of_float(bits: u64) -> (r: i64)
    ensures
        r == float_key(bits),
{
    if bits >= 0x8000_0000_0000_0000 {
        let magnitude = bits - 0x8000_0000_0000_0000;
        -(magnitude as i64)
    } else {
        bits as i64
    }
}

pub(crate) fn is_nan(bits: u64) -> (r: bool)
    ensures
        r == float_nan(bits),
{
    let k = key_of_float(bits);
    k > 0x7ff0_0000_0000_0000 || k < -0x7ff0_0000_0000_0000
}

/// Which of two values of one type comes first. Minus zero is zero.
pub open spec fn value_lt(a: TypedV, b: TypedV) -> bool {
    match (a, b) {
        (TypedV::String(x), TypedV::String(y)) => text_lt(x, y),
        (TypedV::Integer(x), TypedV::Integer(y)) => x < y,
        (TypedV::Float(x), TypedV::Float(y)) => float_key(x) < float_key(y),
        (TypedV::Bool(x), TypedV::Bool(y)) => !x && y,
        (TypedV::DateTime(x), TypedV::DateTime(y)) => ts_lt(x, y),
        _ => type_rank(type_of(a)) < type_rank(type_of(b)),
    }
}

pub open spec fn type_rank(t: IndexType) -> int {
    match t {
        IndexType::String => 0,
        IndexType::Integer => 1,
        IndexType::Float => 2,
        IndexType::Boolean => 3,
        IndexType::Datetime => 4,
    }
}

fn rank_of_type(t: IndexType) -> (r: u8)
    ensures
        r == type_rank(t),
{
    match t {
        IndexType::String => 0,
        IndexType::Integer => 1,
        IndexType::Float => 2,
        IndexType::Boolean => 3,
        IndexType::Datetime => 4,
    }
}

/// How two values stand to each other.
pub open spec fn value_standing(a: TypedV, b: TypedV) -> Standing {
    if value_lt(a, b) {
        Standing::Below
    } else if value_lt(b, a) {
        Standing::Above
    } else {
        Standing::Same
    }
}

/// Two values are the same. What is no number is not even the same as itself.
pub open spec fn value_eq(a: TypedV, b: TypedV) -> bool {
    match (a, b) {
        (TypedV::Float(x), TypedV::Float(y)) => float_key(x) == float_key(y) && !float_nan(x),
        _ => a == b,
    }
}

pub fn stand_values(a: &TypedValue, b: &TypedValue) -> (r: Standing)
    ensures
        r == value_standing(a@, b@),
{
    match (a, b) {
        (TypedValue::String(x), TypedValue::String(y)) => {
            proof {
                lemma_lt_asymmetric::<String>(x@, y@);
                lemma_lt_asymmetric::<String>(y@, x@);
                String::lt_irreflexive(x@);
            }
            text_standing(x.as_str(), y.as_str())
        },
        (TypedValue::Integer(x), TypedValue::Integer(y)) => if *x < *y {
            Standing::Below
        } else if *y < *x {
            Standing::Above
        } else {
            Standing::Same
        },
        (TypedValue::Float(x), TypedValue::Float(y)) => {
            let p = key_of_float(*x);
            let q = key_of_float(*y);
            if p < q {
                Standing::Below
            } else if q < p {
                Standing::Above
            } else {
                Standing::Same
            }
        },
        (TypedValue::Bool(x), TypedValue::Bool(y)) => if !*x && *y {
            Standing::Below
        } else if *x && !*y {
            Standing::Above
        } else {
            Standing::Same
        },
        (TypedValue::DateTime(x), TypedValue::DateTime(y)) => x.standing(y),
        _ => {
            let p = rank_of_type(type_of_value(a));
            let q = rank_of_type(type_of_value(b));
            if p < q {
                Standing::Below
            } else if q < p {
                Standing::Above
            } else {
                Standing::Same
            }
        },
    }
}

pub fn same_values(a: &TypedValue, b: &TypedValue) -> (r: bool)
    ensures
        r == value_eq(a@, b@),
{
    match (a, b) {
        (TypedValue::String(x), TypedValue::String(y)) => same_text(x.as_str(), y.as_str()),
        (TypedValue::Integer(x), TypedValue::Integer(y)) => *x == *y,
        (TypedValue::Float(x), TypedValue::Float(y)) => key_of_float(*x) == key_of_float(*y)
            && !is_nan(*x),
        (TypedValue::Bool(x), TypedValue::Bool(y)) => *x == *y,
        (TypedValue::DateTime(x), TypedValue::DateTime(y)) => *x == *y,
        _ => false,
    }
}

/// Whether a value is the one that a filter asks for.
pub fn typed_value_matches_query(value: &TypedValue, filter: &TypedValue) -> (r: bool)
    ensures
        r == value_eq(value@, filter@),
{
    same_values(value, filter)
}

/// How two values compare: only values of one type do, and none that is no number.
pub open spec fn compared(a: TypedV, b: TypedV) -> Result<Standing, ErrorV> {
    if type_of(a) != type_of(b) {
        Err(ErrorV::Invalid("typed index value is not valid for declared type"@))
    } else if (a is Float && float_nan(a->Float_0)) || (b is Float && float_nan(b->Float_0)) {
        Err(ErrorV::Invalid("typed index value comparison is undefined"@))
    } else {
        Ok(value_standing(a, b))
    }
}

pub fn typed_value_compare(a: &TypedValue, b: &TypedValue) -> (r: EngineResult<Standing>)
    ensures
        outcome(r) == compared(a@, b@),
{
    if type_of_value(a) != type_of_value(b) {
        return Err(EngineError::Invalid("typed index value is not valid for declared type"));
    }
    let undefined = match (a, b) {
        (TypedValue::Float(x), TypedValue::Float(y)) => is_nan(*x) || is_nan(*y),
        _ => false,
    };
    if undefined {
        return Err(EngineError::Invalid("typed index value comparison is undefined"));
    }
    Ok(stand_values(a, b))
}

#[derive(Clone, Copy, PartialEq, Eq, Structural, Debug)]
pub enum FilterOp {
    Eq,
    Gte,
    Gt,
    Lte,
    Lt,
}

/// The operator accepts the standing.
pub open spec fn op_holds(op: FilterOp, s: Standing) -> bool {
    match op {
        FilterOp::Eq => s is Same,
        FilterOp::Gte => !(s is Below),
        FilterOp::Gt => s is Above,
        FilterOp::Lte => !(s is Above),
        FilterOp::Lt => s is Below,
    }
}

pub fn op_accepts(op: FilterOp, s: Standing) -> (r: bool)
    ensures
        r == op_holds(op, s),
{
    match (op, s) {
        (FilterOp::Eq, Standing::Same) => true,
        (FilterOp::Gte, Standing::Below) => false,
        (FilterOp::Gte, _) => true,
        (FilterOp::Gt, Standing::Above) => true,
        (FilterOp::Lte, Standing::Above) => false,
        (FilterOp::Lte, _) => true,
        (FilterOp::Lt, Standing::Below) => true,
        _ => false,
    }
}

/// A condition on one field.
#[derive(Debug)]
pub struct QueryFilter {
    pub field: String,
    pub op: FilterOp,
    pub value: TypedValue,
}

pub ghost struct FilterV {
    pub field: Seq<char>,
    pub op: FilterOp,
    pub value: TypedV,
}

impl QueryFilter {
    pub open spec fn view(&self) -> FilterV {
        FilterV { field: self.field@, op: self.op, value: self.value@ }
    }

    pub fn duplicate(&self) -> (r: QueryFilter)
        ensures
            r@ == self@,
    {
        QueryFilter { field: self.field.clone(), op: self.op, value: self.value.duplicate() }
    }
}

pub open spec fn filters_v(v: Seq<QueryFilter>) -> Seq<FilterV> {
    v.map_values(|f: QueryFilter| f@)
}

/// Whether the document meets a filter. The field is read as the type of the filter's value.
pub open spec fn entity_meets(entity: JsonV, f: FilterV) -> Result<bool, ErrorV> {
    match field_value(entity, f.field, type_of(f.value)) {
        Err(e) => Err(e),
        Ok(None) => Ok(false),
        Ok(Some(v)) => match compared(v, f.value) {
            Err(e) => Err(e),
            Ok(s) => Ok(op_holds(f.op, s)),
        },
    }
}

pub fn matches_filter_on_entity(entity: &Json, filter: &QueryFilter) -> (r: EngineResult<bool>)
    ensures
        outcome(r) == entity_meets(entity@, filter@),
{
    match typed_value_for_field(entity, filter.field.as_str(), type_of_value(&filter.value)) {
        Err(e) => Err(e),
        Ok(None) => Ok(false),
        Ok(Some(v)) => match typed_value_compare(&v, &filter.value) {
            Err(e) => Err(e),
            Ok(s) => Ok(op_accepts(filter.op, s)),
        },
    }
}

/// Whether the document meets every filter. The first that it fails decides.
pub open spec fn entity_meets_all(entity: JsonV, fs: Seq<FilterV>) -> Result<bool, ErrorV>
    decreases fs.len(),
{
    if fs.len() == 0 {
        Ok(true)
    } else {
        match entity_meets(entity, fs[0]) {
            Err(e) => Err(e),
            Ok(false) => Ok(false),
            Ok(true) => entity_meets_all(entity, fs.drop_first()),
        }
    }
}

pub fn matches_filters_on_entity(entity: &Json, filters: &Vec<QueryFilter>) -> (r: EngineResult<
    bool,
>)
    ensures
        outcome(r) == entity_meets_all(entity@, filters_v(filters@)),
{
    let ghost all = filters_v(filters@);
    let mut i: usize = 0;
    assert(all.skip(0) =~= all);
    while i < filters.len()
        invariant
            i <= filters@.len(),
            all == filters_v(filters@),
            entity_meets_all(entity@, all) == entity_meets_all(entity@, all.skip(i as int)),
        decreases filters@.len() - i,
    {
        proof {
            assert(all.skip(i as int)[0] == filters@[i as int]@);
            assert(all.skip(i as int).drop_first() =~= all.skip(i as int + 1));
        }
        match matches_filter_on_entity(entity, &filters[i]) {
            Err(e) => return Err(e),
            Ok(false) => return Ok(false),
            Ok(true) => {},
        }
        i = i + 1;
    }
    Ok(true)
}

#[derive(Clone, Copy, PartialEq, Eq, Structural, Debug)]
pub enum TimeBucket {
    Hour,
    Day,
}

pub open spec fn bucket_seconds(b: TimeBucket) -> int {
    match b {
        TimeBucket::Hour => 3600,
        TimeBucket::Day => 86400,
    }
}

/// The start of the hour or day of an instant, or the first second of all where it lies before that.
pub open spec fn truncated(t: UtcTimestamp, b: TimeBucket) -> UtcTimestamp {
    let start = t.seconds as int / bucket_seconds(b) * bucket_seconds(b);
    UtcTimestamp {
        seconds: if start < i64::MIN {
            i64::MIN
        } else {
            start as i64
        },
        nanoseconds: 0,
    }
}

/// The start of the hour or day of an instant.
pub fn truncate_timestamp(value: UtcTimestamp, bucket: TimeBucket) -> (r: UtcTimestamp)
    ensures
        r == truncated(value, bucket),
        value.seconds - bucket_seconds(bucket) < r.seconds <= value.seconds,
{
    let step: i128 = match bucket {
        TimeBucket::Hour => 3600,
        TimeBucket::Day => 86400,
    };
    let q = match bucket {
        TimeBucket::Hour => floor_div(value.seconds as i128, 3600),
        TimeBucket::Day => floor_div(floor_div(value.seconds as i128, 43200), 2),
    };
    proof {
        lemma_fundamental_div_mod(value.seconds as int, step as int);
        assert(q == value.seconds as int / step as int);
    }
    let start = q * step;
    if start < -0x8000_0000_0000_0000 {
        return UtcTimestamp { seconds: i64::MIN, nanoseconds: 0 };
    }
    UtcTimestamp { seconds: start as i64, nanoseconds: 0 }
}

pub open spec fn two_to(n: nat) -> nat
    decreases n,
{
    if n == 0 {
        1
    } else {
        2 * two_to((n - 1) as nat)
    }
}

/// The place of the highest bit that is set.
pub open spec fn top_bit(m: nat) -> nat
    decreases m,
{
    if m <= 1 {
        0
    } else {
        1 + top_bit(m / 2)
    }
}

/// The 53 leading bits of a number, rounded to the nearest, and to even where two are as near.
pub open spec fn leading(m: nat, top: nat) -> nat {
    if top <= 52 {
        m * two_to((52 - top) as nat)
    } else {
        let unit = two_to((top - 52) as nat);
        let q = m / unit;
        let rest = m % unit;
        if 2 * rest > unit || (2 * rest == unit && q % 2 == 1) {
            q + 1
        } else {
            q
        }
    }
}

/// The bits of the floating-point value nearest to an integer, given by its size and sign.
pub open spec fn float_of_size(m: nat, negative: bool) -> u64 {
    if m == 0 {
        0
    } else {
        let top = top_bit(m);
        let sign: int = if negative {
            0x8000_0000_0000_0000
        } else {
            0
        };
        (sign + (1022 + top) * 0x10_0000_0000_0000 + leading(m, top)) as u64
    }
}

/// The bits of the floating-point value nearest to an integer.
pub open spec fn float_of_int(v: i64) -> u64 {
    float_of_size(
        if v < 0 {
            -(v as int)
        } else {
            v as int
        } as nat,
        v < 0,
    )
}

/// The bits of a number in binary floating point.
pub open spec fn number_float(n: JsonNumber) -> u64 {
    match n {
        JsonNumber::Unsigned(v) => float_of_size(v as nat, false),
        JsonNumber::Negative(v) => float_of_int(v),
        JsonNumber::Float(b) => b,
    }
}

proof fn lemma_top_bit(m: nat, p: nat)
    requires
        two_to(p) <= m < 2 * two_to(p),
    ensures
        top_bit(m) == p,
    decreases p,
{
    if p > 0 {
        lemma_top_bit(m / 2, (p - 1) as nat);
    }
}

proof fn lemma_two_sum(a: nat, b: nat)
    ensures
        two_to(a) * two_to(b) == two_to(a + b),
    decreases a,
{
    if a > 0 {
        lemma_two_sum((a - 1) as nat, b);
        assert(2 * two_to((a - 1) as nat) * two_to(b) == 2 * (two_to((a - 1) as nat) * two_to(b)))
            by (nonlinear_arith);
        assert((a + b - 1) as nat == (a - 1) as nat + b);
    } else {
        assert(1 * two_to(b) == two_to(b)) by (nonlinear_arith);
    }
}

proof fn lemma_two_grows(a: nat, b: nat)
    requires
        a <= b,
    ensures
        1 <= two_to(a) <= two_to(b),
    decreases b,
{
    if a < b {
        lemma_two_grows(a, (b - 1) as nat);
    } else if a > 0 {
        lemma_two_grows((a - 1) as nat, (b - 1) as nat);
    }
}

fn power_of_two(n: u64) -> (r: u64)
    requires
        n <= 63,
    ensures
        r == two_to(n as nat),
        r >= 1,
{
    let mut out: u64 = 1;
    let mut i: u64 = 0;
    proof {
        assert(two_to(63) == 0x8000_0000_0000_0000) by {
            reveal_with_fuel(two_to, 64);
        }
    }
    while i < n
        invariant
            i <= n <= 63,
            out == two_to(i as nat),
            out >= 1,
            two_to(63) == 0x8000_0000_0000_0000,
        decreases n - i,
    {
        proof {
            lemma_two_grows((i + 1) as nat, 63);
            assert(two_to((i + 1) as nat) == 2 * two_to(i as nat));
        }
        out = out * 2;
        i = i + 1;
    }
    out
}

/// The bits of the floating-point value nearest to an integer.
pub fn float_bits_of(v: i64) -> (r: u64)
    ensures
        r == float_of_int(v),
{
    let m: u64 = if v < 0 {
        (-(v as i128)) as u64
    } else {
        v as u64
    };
    float_bits_of_size(m, v < 0)
}

/// The bits of a number in binary floating point.
pub fn number_float_bits(n: &JsonNumber) -> (r: u64)
    ensures
        r == number_float(*n),
{
    match n {
        JsonNumber::Unsigned(v) => float_bits_of_size(*v, false),
        JsonNumber::Negative(v) => float_bits_of(*v),
        JsonNumber::Float(b) => *b,
    }
}

fn float_bits_of_size(m: u64, negative: bool) -> (r: u64)
    ensures
        r == float_of_size(m as nat, negative),
{
    if m == 0 {
        return 0;
    }
    let mut top: u64 = 0;
    let mut power: u128 = 1;
    proof {
        assert(two_to(0) == 1);
        assert(two_to(63) == 0x8000_0000_0000_0000) by {
            reveal_with_fuel(two_to, 64);
        }
    }
    while power * 2 <= m as u128
        invariant
            power == two_to(top as nat),
            1 <= power <= m,
            two_to(63) == 0x8000_0000_0000_0000,
            top <= 63,
        decreases m - power,
    {
        proof {
            assert(two_to((top + 1) as nat) == 2 * two_to(top as nat));
            if top >= 63 {
                lemma_two_grows(63, top as nat);
            }
        }
        power = power * 2;
        top = top + 1;
    }
    proof {
        lemma_top_bit(m as nat, top as nat);
        assert(two_to(52) == 0x10_0000_0000_0000 && two_to(53) == 0x20_0000_0000_0000) by {
            reveal_with_fuel(two_to, 54);
        }
    }
    let q: u64 = if top <= 52 {
        let unit = power_of_two(52 - top);
        proof {
            lemma_two_sum(top as nat, (52 - top) as nat);
            assert(m * unit < 2 * power * unit) by (nonlinear_arith)
                requires
                    m < 2 * power,
                    unit >= 1,
            ;
            assert(2 * power * unit == 2 * (power * unit)) by (nonlinear_arith);
        }
        let wide = (m as u128) * (unit as u128);
        wide as u64
    } else {
        let unit = power_of_two(top - 52);
        proof {
            lemma_two_sum(52, (top - 52) as nat);
            lemma_fundamental_div_mod(m as int, unit as int);
            let d = m as int / unit as int;
            assert(d < 0x20_0000_0000_0000) by (nonlinear_arith)
                requires
                    m == unit * d + m as int % unit as int,
                    m as int % unit as int >= 0,
                    m < 2 * (0x10_0000_0000_0000 * unit),
                    unit >= 1,
            ;
        }
        let q = m / unit;
        let rest = m % unit;
        if 2 * (rest as u128) > unit as u128 || (2 * (rest as u128) == unit as u128 && q % 2 == 1) {
            q + 1
        } else {
            q
        }
    };
    let body = (1022 + top) * 0x10_0000_0000_0000 + q;
    if negative {
        body + 0x8000_0000_0000_0000
    } else {
        body
    }
}

/// The JSON value of a typed value. A float has none unless it is finite.
pub open spec fn json_of_typed(v: TypedV) -> Result<JsonV, ErrorV> {
    match v {
        TypedV::String(t) => Ok(JsonV::Text(t)),
        TypedV::Integer(n) => Ok(
            JsonV::Number(JsonNumber::of_integer(n)),
        ),
        TypedV::Float(b) => if float_finite(b) {
            Ok(JsonV::Number(JsonNumber::Float(b)))
        } else {
            Err(ErrorV::Invalid("typed index value is not valid for declared type"@))
        },
        TypedV::Bool(b) => Ok(JsonV::Bool(b)),
        TypedV::DateTime(t) => Ok(
            JsonV::Number(JsonNumber::of_integer(t.seconds)),
        ),
    }
}

pub open spec fn json_outcome(r: EngineResult<Json>) -> Result<JsonV, ErrorV> {
    match r {
        Ok(j) => Ok(j@),
        Err(e) => Err(e@),
    }
}

pub fn typed_value_to_json(value: &TypedValue) -> (r: EngineResult<Json>)
    ensures
        json_outcome(r) == json_of_typed(value@),
{
    match value {
        TypedValue::String(t) => Ok(Json::Text(t.clone())),
        TypedValue::Integer(n) => Ok(
            Json::Number(JsonNumber::from_i64(*n)),
        ),
        TypedValue::Float(b) => {
            let k = key_of_float(*b);
            if -0x7ff0_0000_0000_0000 < k && k < 0x7ff0_0000_0000_0000 {
                Ok(Json::Number(JsonNumber::Float(*b)))
            } else {
                Err(EngineError::Invalid("typed index value is not valid for declared type"))
            }
        },
        TypedValue::Bool(b) => Ok(Json::Bool(*b)),
        TypedValue::DateTime(t) => Ok(
            Json::Number(JsonNumber::from_i64(t.seconds)),
        ),
    }
}

/// A value that is written as JSON reads back as the value it was, but for the nanoseconds of an
/// instant.
pub proof fn law_typed_value_reads_back(v: TypedV)
    requires
        json_of_typed(v) is Ok,
    ensures
        typed_of_json(json_of_typed(v)->Ok_0, type_of(v)) == Ok::<TypedV, ErrorV>(
            match v {
                TypedV::DateTime(t) => TypedV::DateTime(
                    UtcTimestamp { seconds: t.seconds, nanoseconds: 0 },
                ),
                _ => v,
            },
        ),
{
}

/// The year has a leap day.
pub open spec fn leap(year: int) -> bool {
    year % 4 == 0 && (year % 100 != 0 || year % 400 == 0)
}

pub open spec fn month_length(year: int, month: int) -> int {
    if month == 2 {
        if leap(year) {
            29
        } else {
            28
        }
    } else if month == 4 || month == 6 || month == 9 || month == 11 {
        30
    } else {
        31
    }
}

/// A year has as many leap days more than the one before as it has leap days itself.
#[verifier::spinoff_prover]
proof fn lemma_leap_days(year: int)
    ensures
        year / 4 - year / 100 + year / 400 == (year - 1) / 4 - (year - 1) / 100 + (year - 1) / 400
            + if leap(year) {
            1int
        } else {
            0int
        },
{
    assert(year / 4 == (year - 1) / 4 + if year % 4 == 0 {
        1int
    } else {
        0int
    });
    assert(year / 100 == (year - 1) / 100 + if year % 100 == 0 {
        1int
    } else {
        0int
    });
    assert(year / 400 == (year - 1) / 400 + if year % 400 == 0 {
        1int
    } else {
        0int
    });
    assert(year % 100 == 0 ==> year % 4 == 0);
    assert(year % 400 == 0 ==> year % 100 == 0);
}

/// The days before the months of a year that starts in March.
proof fn lemma_month_days(month: int)
    requires
        3 <= month <= 11,
    ensures
        (153 * (month - 2) + 2) / 5 == (153 * (month - 3) + 2) / 5 + month_length(1, month),
{
}

/// The epoch starts on the first of January 1970; the first of a month lies its length before the first
/// of the next.
pub proof fn law_calendar(year: int, month: int)
    requires
        1 <= month <= 12,
    ensures
        civil_day(1970, 1, 1) == 0,
        month < 12 ==> civil_day(year, month + 1, 1) == civil_day(year, month, 1) + month_length(
            year,
            month,
        ),
        month == 12 ==> civil_day(year + 1, 1, 1) == civil_day(year, 12, 1) + 31,
{
    assert(civil_day(1970, 1, 1) == 0);
    if month == 2 {
        lemma_leap_days(year);
        assert((153 * 11 + 2) / 5 == 337);
    } else if month == 1 || month == 12 {
        assert((153 * 9 + 2) / 5 == 275 && (153 * 10 + 2) / 5 == 306 && (153 * 11 + 2) / 5 == 337);
    } else {
        lemma_month_days(month);
    }
}

/// Values order strictly: none comes before itself, and what comes before one that comes before a third
/// comes before the third.
pub proof fn law_values_are_ordered(a: TypedV, b: TypedV, c: TypedV)
    ensures
        !value_lt(a, a),
        value_lt(a, b) && value_lt(b, c) ==> value_lt(a, c),
        value_lt(a, b) ==> !value_lt(b, a),
        !value_lt(a, b) && !value_lt(b, a) && value_lt(b, c) ==> value_lt(a, c),
        !value_lt(a, b) && !value_lt(b, a) && value_lt(c, b) ==> value_lt(c, a),
{
    match (a, b) {
        (TypedV::String(x), TypedV::String(y)) => {
            String::lt_irreflexive(x);
            String::lt_irreflexive(y);
            String::lt_total(x, y);
            lemma_lt_asymmetric::<String>(x, y);
            match c {
                TypedV::String(z) => {
                    if text_lt(x, y) && text_lt(y, z) {
                        String::lt_transitive(x, y, z);
                    }
                },
                _ => {},
            }
        },
        (TypedV::String(x), _) => {
            String::lt_irreflexive(x);
        },
        _ => {},
    }
}

} // verus!
