//! Values that go to a relational store and come back from it.

use crate::text::{clone_bytes, debug_of, debug_text, int_numeral, numeral, opt_text, push_i64, push_u64, texts};
use crate::types::{EngineError, EngineResult, ErrorV};
use vstd::prelude::*;
use vstd::string::*;

verus! {

/// A floating-point cell: its bits, and how it prints.
#[derive(Debug, PartialEq, Eq)]
pub struct RealCell {
    pub bits: u64,
    pub shown: String,
}

/// One bound parameter or result cell.
#[derive(Debug, PartialEq, Eq)]
pub enum RelValue {
    Null,
    Integer(i64),
    Real(RealCell),
    Text(String),
    Blob(Vec<u8>),
}

/// What a cell holds.
pub ghost enum CellV {
    Null,
    Integer(i64),
    Real(u64, Seq<char>),
    Text(Seq<char>),
    Blob(Seq<u8>),
}

impl RelValue {
    pub open spec fn view(&self) -> CellV {
        match self {
            RelValue::Null => CellV::Null,
            RelValue::Integer(v) => CellV::Integer(*v),
            RelValue::Real(c) => CellV::Real(c.bits, c.shown@),
            RelValue::Text(t) => CellV::Text(t@),
            RelValue::Blob(b) => CellV::Blob(b@),
        }
    }

    /// A second cell that holds the same.
    pub fn duplicate(&self) -> (r: RelValue)
        ensures
            r@ == self@,
    {
        match self {
            RelValue::Null => RelValue::Null,
            RelValue::Integer(v) => RelValue::Integer(*v),
            RelValue::Real(c) => RelValue::Real(
                RealCell { bits: c.bits, shown: c.shown.clone() },
            ),
            RelValue::Text(t) => RelValue::Text(t.clone()),
            RelValue::Blob(b) => RelValue::Blob(clone_bytes(b)),
        }
    }

    pub fn opt_text(value: Option<String>) -> (r: RelValue)
        ensures
            r@ == text_cell(crate::text::opt_text(value)),
    {
        match value {
            Some(t) => RelValue::Text(t),
            None => RelValue::Null,
        }
    }

    pub fn opt_int(value: Option<i64>) -> (r: RelValue)
        ensures
            r@ == int_cell(value),
    {
        match value {
            Some(v) => RelValue::Integer(v),
            None => RelValue::Null,
        }
    }

    pub fn opt_blob(value: Option<Vec<u8>>) -> (r: RelValue)
        ensures
            r@ == blob_cell(bytes_opt(value)),
    {
        match value {
            Some(b) => RelValue::Blob(b),
            None => RelValue::Null,
        }
    }
}

pub open spec fn bytes_opt(b: Option<Vec<u8>>) -> Option<Seq<u8>> {
    match b {
        Some(x) => Some(x@),
        None => None,
    }
}

/// A text, or nothing.
pub open spec fn text_cell(t: Option<Seq<char>>) -> CellV {
    match t {
        Some(x) => CellV::Text(x),
        None => CellV::Null,
    }
}

/// An integer, or nothing.
pub open spec fn int_cell(v: Option<i64>) -> CellV {
    match v {
        Some(x) => CellV::Integer(x),
        None => CellV::Null,
    }
}

/// Bytes, or nothing.
pub open spec fn blob_cell(b: Option<Seq<u8>>) -> CellV {
    match b {
        Some(x) => CellV::Blob(x),
        None => CellV::Null,
    }
}

/// A flag as a number.
pub open spec fn flag_cell(b: bool) -> CellV {
    CellV::Integer(
        if b {
            1
        } else {
            0
        },
    )
}

/// Cells by what they hold.
pub open spec fn cells(v: Seq<RelValue>) -> Seq<CellV> {
    v.map_values(|c: RelValue| c@)
}

/// The numerals of bytes, set apart by commas.
pub open spec fn byte_list(b: Seq<u8>) -> Seq<char>
    decreases b.len(),
{
    if b.len() == 0 {
        Seq::empty()
    } else if b.len() == 1 {
        numeral(b[0] as nat)
    } else {
        byte_list(b.drop_last()) + ", "@ + numeral(b.last() as nat)
    }
}

/// How a cell prints where it was not expected.
pub open spec fn shown(c: CellV) -> Seq<char> {
    match c {
        CellV::Null => "Null"@,
        CellV::Integer(v) => "Integer("@ + int_numeral(v as int) + ")"@,
        CellV::Real(_, t) => "Real("@ + t + ")"@,
        CellV::Text(t) => "Text("@ + debug_of(t) + ")"@,
        CellV::Blob(b) => "Blob(["@ + byte_list(b) + "])"@,
    }
}

fn push_byte_list(out: &mut String, b: &Vec<u8>)
    ensures
        final(out)@ == old(out)@ + byte_list(b@),
{
    let ghost start = out@;
    let mut i: usize = 0;
    assert(b@.take(0) =~= Seq::<u8>::empty());
    assert(out@ =~= start + byte_list(b@.take(0)));
    while i < b.len()
        invariant
            i <= b@.len(),
            out@ == start + byte_list(b@.take(i as int)),
        decreases b@.len() - i,
    {
        proof {
            assert(b@.take(i as int + 1).drop_last() =~= b@.take(i as int));
            assert(b@.take(i as int + 1).last() == b@[i as int]);
        }
        if i > 0 {
            out.append(", ");
        }
        push_u64(out, b[i] as u64);
        i = i + 1;
        proof {
            if i == 1 {
                assert(byte_list(b@.take(0)) =~= Seq::<char>::empty());
            }
            assert(out@ =~= start + byte_list(b@.take(i as int)));
        }
    }
    assert(b@.take(i as int) =~= b@);
}

fn show(value: &RelValue) -> (r: String)
    ensures
        r@ == shown(value@),
{
    match value {
        RelValue::Null => "Null".to_owned(),
        RelValue::Integer(v) => {
            let mut out = "Integer(".to_owned();
            push_i64(&mut out, *v);
            out.append(")");
            out
        },
        RelValue::Real(c) => {
            let mut out = "Real(".to_owned();
            out.append(c.shown.as_str());
            out.append(")");
            out
        },
        RelValue::Text(t) => {
            let mut out = "Text(".to_owned();
            out.append(debug_text(t.as_str()).as_str());
            out.append(")");
            out
        },
        RelValue::Blob(b) => {
            let mut out = "Blob([".to_owned();
            push_byte_list(&mut out, b);
            out.append("])");
            out
        },
    }
}

/// The fault of a cell of another kind than the one expected.
pub open spec fn unlike(expected: Seq<char>, c: CellV) -> ErrorV {
    ErrorV::Storage(expected + shown(c))
}

fn unlike_error(expected: &str, value: &RelValue) -> (r: EngineError)
    ensures
        r@ == unlike(expected@, value@),
{
    let mut out = expected.to_owned();
    out.append(show(value).as_str());
    EngineError::Storage(out)
}

/// A value that can be read from a cell.
pub trait FromRelValue: Sized {
    type V;

    spec fn held(&self) -> Self::V;

    /// What a cell is read as.
    spec fn reading(c: CellV) -> Result<Self::V, ErrorV>;

    fn from_rel(value: &RelValue) -> (r: EngineResult<Self>)
        ensures
            match r {
                Ok(x) => Self::reading(value@) == Ok::<Self::V, ErrorV>(x.held()),
                Err(e) => Self::reading(value@) == Err::<Self::V, ErrorV>(e@),
            },
    ;
}

impl FromRelValue for RelValue {
    type V = CellV;

    open spec fn held(&self) -> CellV {
        self@
    }

    open spec fn reading(c: CellV) -> Result<CellV, ErrorV> {
        Ok(c)
    }

    fn from_rel(value: &RelValue) -> (r: EngineResult<RelValue>) {
        Ok(value.duplicate())
    }
}

/// A cell read as a text.
pub open spec fn read_text(c: CellV) -> Result<Seq<char>, ErrorV> {
    match c {
        CellV::Text(t) => Ok(t),
        other => Err(unlike("expected text, got "@, other)),
    }
}

/// A cell read as an integer.
pub open spec fn read_int(c: CellV) -> Result<i64, ErrorV> {
    match c {
        CellV::Integer(v) => Ok(v),
        other => Err(unlike("expected integer, got "@, other)),
    }
}

/// A cell read as bytes.
pub open spec fn read_blob(c: CellV) -> Result<Seq<u8>, ErrorV> {
    match c {
        CellV::Blob(b) => Ok(b),
        other => Err(unlike("expected blob, got "@, other)),
    }
}

impl FromRelValue for String {
    type V = Seq<char>;

    open spec fn held(&self) -> Seq<char> {
        self@
    }

    open spec fn reading(c: CellV) -> Result<Seq<char>, ErrorV> {
        read_text(c)
    }

    fn from_rel(value: &RelValue) -> (r: EngineResult<String>) {
        match value {
            RelValue::Text(text) => Ok(text.clone()),
            other => Err(unlike_error("expected text, got ", other)),
        }
    }
}

impl FromRelValue for i64 {
    type V = i64;

    open spec fn held(&self) -> i64 {
        *self
    }

    open spec fn reading(c: CellV) -> Result<i64, ErrorV> {
        read_int(c)
    }

    fn from_rel(value: &RelValue) -> (r: EngineResult<i64>) {
        match value {
            RelValue::Integer(v) => Ok(*v),
            other => Err(unlike_error("expected integer, got ", other)),
        }
    }
}

impl FromRelValue for Vec<u8> {
    type V = Seq<u8>;

    open spec fn held(&self) -> Seq<u8> {
        self@
    }

    open spec fn reading(c: CellV) -> Result<Seq<u8>, ErrorV> {
        read_blob(c)
    }

    fn from_rel(value: &RelValue) -> (r: EngineResult<Vec<u8>>) {
        match value {
            RelValue::Blob(b) => Ok(clone_bytes(b)),
            other => Err(unlike_error("expected blob, got ", other)),
        }
    }
}

impl FromRelValue for bool {
    type V = bool;

    open spec fn held(&self) -> bool {
        *self
    }

    /// A flag is an integer other than zero.
    open spec fn reading(c: CellV) -> Result<bool, ErrorV> {
        match read_int(c) {
            Ok(v) => Ok(v != 0),
            Err(e) => Err(e),
        }
    }

    fn from_rel(value: &RelValue) -> (r: EngineResult<bool>) {
        match i64::from_rel(value) {
            Ok(v) => Ok(v != 0),
            Err(e) => Err(e),
        }
    }
}

impl<T: FromRelValue> FromRelValue for Option<T> {
    type V = Option<T::V>;

    open spec fn held(&self) -> Option<T::V> {
        match self {
            Some(x) => Some(x.held()),
            None => None,
        }
    }

    open spec fn reading(c: CellV) -> Result<Option<T::V>, ErrorV> {
        match c {
            CellV::Null => Ok(None),
            other => match T::reading(other) {
                Ok(x) => Ok(Some(x)),
                Err(e) => Err(e),
            },
        }
    }

    fn from_rel(value: &RelValue) -> (r: EngineResult<Option<T>>) {
        match value {
            RelValue::Null => Ok(None),
            other => match T::from_rel(other) {
                Ok(x) => Ok(Some(x)),
                Err(e) => Err(e),
            },
        }
    }
}

/// One result row.
#[derive(Debug, PartialEq, Eq)]
pub struct RelRow(pub Vec<RelValue>);

/// The cell of a column, read as a value.
pub open spec fn column<T: FromRelValue>(row: Seq<CellV>, index: nat) -> Result<T::V, ErrorV> {
    if index < row.len() {
        T::reading(row[index as int])
    } else {
        Err(ErrorV::Storage("relational row missing column "@ + numeral(index)))
    }
}

impl RelRow {
    pub open spec fn view(&self) -> Seq<CellV> {
        cells(self.0@)
    }

    pub fn get<T: FromRelValue>(&self, index: usize) -> (r: EngineResult<T>)
        ensures
            match r {
                Ok(x) => column::<T>(self@, index as nat) == Ok::<T::V, ErrorV>(x.held()),
                Err(e) => column::<T>(self@, index as nat) == Err::<T::V, ErrorV>(e@),
            },
    {
        if index < self.0.len() {
            T::from_rel(&self.0[index])
        } else {
            let mut out = "relational row missing column ".to_owned();
            push_u64(&mut out, index as u64);
            Err(EngineError::Storage(out))
        }
    }
}

/// Rows by what they hold.
pub open spec fn rows_v(rows: Seq<RelRow>) -> Seq<Seq<CellV>> {
    rows.map_values(|r: RelRow| r@)
}

/// Parameters in the order of their places.
pub struct Params {
    pub list: Vec<RelValue>,
}

impl Params {
    pub open spec fn view(&self) -> Seq<CellV> {
        cells(self.list@)
    }

    pub fn new() -> (r: Params)
        ensures
            r@ == Seq::<CellV>::empty(),
    {
        let list: Vec<RelValue> = Vec::new();
        assert(cells(list@) =~= Seq::<CellV>::empty());
        Params { list }
    }

    /// The queue's own parameters, which come first.
    pub fn of(tenant: &str, queue: &str) -> (r: Params)
        ensures
            r@ == seq![CellV::Text(tenant@), CellV::Text(queue@)],
    {
        Params::new().text(tenant).text(queue)
    }

    pub fn with(self, cell: RelValue) -> (r: Params)
        ensures
            r@ == self@.push(cell@),
    {
        let mut list = self.list;
        let ghost before = list@;
        list.push(cell);
        assert(cells(list@) =~= cells(before).push(cell@));
        Params { list }
    }

    pub fn text(self, t: &str) -> (r: Params)
        ensures
            r@ == self@.push(CellV::Text(t@)),
    {
        self.with(RelValue::Text(t.to_owned()))
    }

    pub fn number(self, v: i64) -> (r: Params)
        ensures
            r@ == self@.push(CellV::Integer(v)),
    {
        self.with(RelValue::Integer(v))
    }

    pub fn flag(self, b: bool) -> (r: Params)
        ensures
            r@ == self@.push(flag_cell(b)),
    {
        self.with(
            RelValue::Integer(
                if b {
                    1
                } else {
                    0
                },
            ),
        )
    }

    pub fn blob(self, b: &Vec<u8>) -> (r: Params)
        ensures
            r@ == self@.push(CellV::Blob(b@)),
    {
        self.with(RelValue::Blob(clone_bytes(b)))
    }

    pub fn maybe_text(self, t: &Option<String>) -> (r: Params)
        ensures
            r@ == self@.push(text_cell(crate::text::opt_text(*t))),
    {
        match t {
            Some(x) => self.with(RelValue::Text(x.clone())),
            None => self.with(RelValue::Null),
        }
    }

    pub fn maybe_int(self, v: Option<i64>) -> (r: Params)
        ensures
            r@ == self@.push(int_cell(v)),
    {
        self.with(RelValue::opt_int(v))
    }

    pub fn maybe_blob(self, b: &Option<Vec<u8>>) -> (r: Params)
        ensures
            r@ == self@.push(blob_cell(bytes_opt(*b))),
    {
        match b {
            Some(x) => self.with(RelValue::Blob(clone_bytes(x))),
            None => self.with(RelValue::Null),
        }
    }

    /// One parameter for each text of a stretch.
    pub fn texts(self, list: &Vec<String>, from: usize, to: usize) -> (r: Params)
        requires
            from <= to <= list@.len(),
        ensures
            r@ == self@ + text_cells(crate::text::texts(list@).subrange(from as int, to as int)),
    {
        let ghost all = crate::text::texts(list@);
        let ghost start = self@;
        let mut out = self;
        let mut i: usize = from;
        assert(out@ =~= start + text_cells(all.subrange(from as int, from as int)));
        while i < to
            invariant
                from <= i <= to <= list@.len(),
                all == crate::text::texts(list@),
                out@ == start + text_cells(all.subrange(from as int, i as int)),
            decreases to - i,
        {
            out = out.text(list[i].as_str());
            assert(out@ =~= start + text_cells(all.subrange(from as int, i as int + 1)));
            i = i + 1;
        }
        out
    }
}

/// A text cell for each text.
pub open spec fn text_cells(t: Seq<Seq<char>>) -> Seq<CellV> {
    t.map_values(|x: Seq<char>| CellV::Text(x))
}

} // verus!
