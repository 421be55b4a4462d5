//! Ordered scans over a typed index, page by page.

use crate::indexing::typed_at;
use crate::item::Item;
use crate::json::{Json, JsonV};
use crate::model::Model;
use crate::order::{OrdMap, Standing, lemma_ascending_distinct, lemma_listing_exists, listing_of};
use crate::projection::ProjectionData;
use crate::text::{opt_text, same_text};
use crate::typed::{FilterOp, FilterV, QueryFilter, compared, field_value, filters_v, law_values_are_ordered, op_accepts, op_holds, same_values, stand_values, type_of, type_of_value, typed_value_compare, typed_value_for_field, typed_value_matches_query, value_eq, value_lt};
use crate::types::{EngineError, EngineResult, ErrorV, IndexField, IndexType, ItemId, QueueIndex, QueueIndexV, TypedV, TypedValue, index_fields_v, outcome, typed_specs_v};
use vstd::prelude::*;

verus! {

/// Values by field.
pub type ValueMap = OrdMap<String, TypedValue>;

pub open spec fn value_map_v(m: ValueMap) -> Map<Seq<char>, TypedV> {
    m@.map_values(|v: TypedValue| v@)
}

/// A row of an index: an item with its values.
pub struct RangeScanRow {
    pub item_id: ItemId,
    pub fields: ValueMap,
}

pub ghost struct RowV {
    pub item_id: ItemId,
    pub fields: Map<Seq<char>, TypedV>,
}

impl RangeScanRow {
    pub open spec fn view(&self) -> RowV {
        RowV { item_id: self.item_id, fields: value_map_v(self.fields) }
    }
}

pub open spec fn rows_v(v: Seq<RangeScanRow>) -> Seq<RowV> {
    v.map_values(|r: RangeScanRow| r@)
}

#[derive(Clone, Copy, PartialEq, Eq, Structural, Debug)]
pub enum SortDirection {
    Ascending,
    Descending,
}

#[derive(Debug)]
pub struct OrderField {
    pub field: String,
    pub direction: SortDirection,
}

pub ghost struct OrderV {
    pub field: Seq<char>,
    pub direction: SortDirection,
}

impl OrderField {
    pub open spec fn view(&self) -> OrderV {
        OrderV { field: self.field@, direction: self.direction }
    }

    pub fn duplicate(&self) -> (r: OrderField)
        ensures
            r@ == self@,
    {
        OrderField { field: self.field.clone(), direction: self.direction }
    }
}

pub open spec fn orders_v(v: Seq<OrderField>) -> Seq<OrderV> {
    v.map_values(|o: OrderField| o@)
}

/// Where a scan goes on: after one row, of the same scan.
#[derive(Debug)]
pub struct RangeScanCursorState {
    pub index: String,
    pub filters: Vec<QueryFilter>,
    pub order_by: Vec<OrderField>,
    pub anchor_item_id: ItemId,
    pub anchor_values: Vec<TypedValue>,
    /// The anchor's key in the index. A scan leaves it out, and reads none that comes.
    pub anchor_index_key: Option<Vec<u8>>,
}

pub ghost struct CursorV {
    pub index: Seq<char>,
    pub filters: Seq<FilterV>,
    pub order_by: Seq<OrderV>,
    pub anchor_item_id: ItemId,
    pub anchor_values: Seq<TypedV>,
    pub anchor_index_key: Option<Seq<u8>>,
}

pub open spec fn typed_values_v(v: Seq<TypedValue>) -> Seq<TypedV> {
    v.map_values(|x: TypedValue| x@)
}

impl RangeScanCursorState {
    pub open spec fn view(&self) -> CursorV {
        CursorV {
            index: self.index@,
            filters: filters_v(self.filters@),
            order_by: orders_v(self.order_by@),
            anchor_item_id: self.anchor_item_id,
            anchor_values: typed_values_v(self.anchor_values@),
            anchor_index_key: match self.anchor_index_key {
                Some(k) => Some(k@),
                None => None,
            },
        }
    }
}

/// The cursor that came with a request.
pub enum QueryCursor {
    Start,
    /// It could not be read.
    Unreadable,
    After(RangeScanCursorState),
}

pub ghost enum CursorArgV {
    Start,
    Unreadable,
    After(CursorV),
}

impl QueryCursor {
    pub open spec fn view(&self) -> CursorArgV {
        match self {
            QueryCursor::Start => CursorArgV::Start,
            QueryCursor::Unreadable => CursorArgV::Unreadable,
            QueryCursor::After(c) => CursorArgV::After(c@),
        }
    }
}

pub struct RangeScanRequest {
    pub index: Option<String>,
    pub filters: Vec<QueryFilter>,
    pub order_by: Vec<OrderField>,
    pub page_size: u32,
    pub cursor: QueryCursor,
}

pub ghost struct ScanV {
    pub index: Option<Seq<char>>,
    pub filters: Seq<FilterV>,
    pub order_by: Seq<OrderV>,
    pub page_size: u32,
    pub cursor: CursorArgV,
}

impl RangeScanRequest {
    pub open spec fn view(&self) -> ScanV {
        ScanV {
            index: opt_text(self.index),
            filters: filters_v(self.filters@),
            order_by: orders_v(self.order_by@),
            page_size: self.page_size,
            cursor: self.cursor@,
        }
    }
}

pub struct RangeScanResponse {
    pub rows: Vec<RangeScanRow>,
    pub next_cursor: Option<RangeScanCursorState>,
}

pub open spec fn response_v(r: RangeScanResponse) -> (Seq<RowV>, Option<CursorV>) {
    (
        rows_v(r.rows@),
        match r.next_cursor {
            Some(c) => Some(c@),
            None => None,
        },
    )
}

/// The most rows that a page holds.
pub const MAX_PAGE_SIZE: u32 = 1000;

/// The typed index of that name, or the first where none is named.
pub open spec fn typed_named(specs: Seq<QueueIndexV>, name: Option<Seq<char>>) -> Result<
    int,
    ErrorV,
> {
    let at = match name {
        Some(n) => typed_at(specs, n, 0),
        None => 0,
    };
    if at < specs.len() {
        Ok(at)
    } else {
        Err(ErrorV::Invalid("unknown secondary index"@))
    }
}

pub fn find_typed_index(specs: &Vec<QueueIndex>, name: &Option<String>) -> (r: EngineResult<usize>)
    ensures
        match r {
            Ok(at) => typed_named(typed_specs_v(specs@), opt_text(*name)) == Ok::<int, ErrorV>(
                at as int,
            ) && at < specs@.len(),
            Err(e) => typed_named(typed_specs_v(specs@), opt_text(*name)) == Err::<int, ErrorV>(e@),
        },
{
    let ghost all = typed_specs_v(specs@);
    match name {
        None => {
            if specs.len() == 0 {
                return Err(EngineError::Invalid("unknown secondary index"));
            }
            Ok(0)
        },
        Some(n) => {
            let mut i: usize = 0;
            while i < specs.len()
                invariant
                    i <= specs@.len(),
                    all == typed_specs_v(specs@),
                    *name == Some(*n),
                    typed_at(all, n@, 0) == typed_at(all, n@, i as int),
                decreases specs@.len() - i,
            {
                assert(all[i as int] == specs@[i as int]@);
                if same_text(specs[i].name.as_str(), n.as_str()) {
                    return Ok(i);
                }
                i = i + 1;
            }
            Err(EngineError::Invalid("unknown secondary index"))
        },
    }
}

/// The place of the first field of that name, or the number of fields.
pub open spec fn field_at(fields: Seq<(Seq<char>, IndexType)>, name: Seq<char>, from: int) -> int
    decreases fields.len() - from,
{
    if from < 0 || from >= fields.len() {
        fields.len() as int
    } else if fields[from].0 == name {
        from
    } else {
        field_at(fields, name, from + 1)
    }
}

pub fn find_field(fields: &Vec<IndexField>, name: &str) -> (r: usize)
    ensures
        r == field_at(index_fields_v(fields@), name@, 0),
        r <= fields@.len(),
{
    let ghost all = index_fields_v(fields@);
    let mut i: usize = 0;
    while i < fields.len()
        invariant
            i <= fields@.len(),
            all == index_fields_v(fields@),
            field_at(all, name@, 0) == field_at(all, name@, i as int),
        decreases fields@.len() - i,
    {
        assert(all[i as int] == (fields@[i as int].field@, fields@[i as int].index_type));
        if same_text(fields[i].field.as_str(), name) {
            return i;
        }
        i = i + 1;
    }
    i
}

/// The values of a document under an index: none where one is missing.
pub open spec fn row_values(fields: Seq<(Seq<char>, IndexType)>, doc: JsonV) -> Result<
    Option<Map<Seq<char>, TypedV>>,
    ErrorV,
>
    decreases fields.len(),
{
    if fields.len() == 0 {
        Ok(Some(Map::empty()))
    } else {
        match row_values(fields.drop_last(), doc) {
            Err(e) => Err(e),
            Ok(None) => Ok(None),
            Ok(Some(m)) => match field_value(doc, fields.last().0, fields.last().1) {
                Err(e) => Err(e),
                Ok(None) => Ok(None),
                Ok(Some(v)) => Ok(Some(m.insert(fields.last().0, v))),
            },
        }
    }
}

proof fn lemma_row_stops(fields: Seq<(Seq<char>, IndexType)>, doc: JsonV, n: int)
    requires
        0 <= n <= fields.len(),
        row_values(fields.take(n), doc) is Err || row_values(fields.take(n), doc) == Ok::<
            Option<Map<Seq<char>, TypedV>>,
            ErrorV,
        >(None),
    ensures
        row_values(fields, doc) == row_values(fields.take(n), doc),
    decreases fields.len() - n,
{
    if n == fields.len() {
        assert(fields.take(n) =~= fields);
    } else {
        assert(fields.take(n + 1).drop_last() =~= fields.take(n));
        lemma_row_stops(fields, doc, n + 1);
    }
}

/// A row has a value for every field of the index.
pub proof fn lemma_row_covers(fields: Seq<(Seq<char>, IndexType)>, doc: JsonV, k: int)
    requires
        0 <= k < fields.len(),
        row_values(fields, doc) is Ok,
        row_values(fields, doc)->Ok_0 is Some,
    ensures
        row_values(fields, doc)->Ok_0->Some_0.contains_key(fields[k].0),
    decreases fields.len(),
{
    if k < fields.len() - 1 {
        lemma_row_covers(fields.drop_last(), doc, k);
        assert(fields.drop_last()[k] == fields[k]);
    }
}

/// The row of a document under an index.
pub fn range_scan_row(fields: &Vec<IndexField>, item_id: ItemId, entity: &Json) -> (r: EngineResult<
    Option<RangeScanRow>,
>)
    ensures
        match r {
            Err(e) => row_values(index_fields_v(fields@), entity@) == Err::<
                Option<Map<Seq<char>, TypedV>>,
                ErrorV,
            >(e@),
            Ok(None) => row_values(index_fields_v(fields@), entity@) == Ok::<
                Option<Map<Seq<char>, TypedV>>,
                ErrorV,
            >(None),
            Ok(Some(row)) => row.item_id == item_id && row_values(
                index_fields_v(fields@),
                entity@,
            ) == Ok::<Option<Map<Seq<char>, TypedV>>, ErrorV>(Some(row@.fields)),
        },
{
    let ghost all = index_fields_v(fields@);
    let mut values: ValueMap = OrdMap::new();
    let mut i: usize = 0;
    assert(all.take(0) =~= Seq::<(Seq<char>, IndexType)>::empty());
    assert(value_map_v(values) =~= Map::<Seq<char>, TypedV>::empty());
    while i < fields.len()
        invariant
            i <= fields@.len(),
            all == index_fields_v(fields@),
            row_values(all.take(i as int), entity@) == Ok::<
                Option<Map<Seq<char>, TypedV>>,
                ErrorV,
            >(Some(value_map_v(values))),
        decreases fields@.len() - i,
    {
        proof {
            assert(all.take(i as int + 1).drop_last() =~= all.take(i as int));
            assert(all.take(i as int + 1).last() == (
                fields@[i as int].field@,
                fields@[i as int].index_type,
            ));
        }
        match typed_value_for_field(entity, fields[i].field.as_str(), fields[i].index_type) {
            Err(e) => {
                proof {
                    lemma_row_stops(all, entity@, i as int + 1);
                }
                return Err(e);
            },
            Ok(None) => {
                proof {
                    lemma_row_stops(all, entity@, i as int + 1);
                }
                return Ok(None);
            },
            Ok(Some(v)) => {
                let ghost before = values;
                values.insert(fields[i].field.clone(), v);
                assert(value_map_v(values) =~= value_map_v(before).insert(
                    fields@[i as int].field@,
                    v@,
                ));
            },
        }
        i = i + 1;
    }
    assert(all.take(i as int) =~= all);
    Ok(Some(RangeScanRow { item_id, fields: values }))
}

/// The last filter on a field.
pub open spec fn last_filter(fs: Seq<FilterV>, name: Seq<char>) -> Option<FilterV>
    decreases fs.len(),
{
    if fs.len() == 0 {
        None
    } else if fs.last().field == name {
        Some(fs.last())
    } else {
        last_filter(fs.drop_last(), name)
    }
}

/// How many leading fields of the index equalities settle. A field without a value settles nothing at
/// all.
pub open spec fn settled_lead(
    fields: Seq<(Seq<char>, IndexType)>,
    fs: Seq<FilterV>,
    row: Map<Seq<char>, TypedV>,
    from: int,
) -> Result<Option<int>, ErrorV>
    decreases fields.len() - from,
{
    if from < 0 || from >= fields.len() {
        Ok(Some(from))
    } else {
        let name = fields[from].0;
        match last_filter(fs, name) {
            None => Ok(Some(from)),
            Some(f) => if type_of(f.value) != fields[from].1 {
                Err(ErrorV::Invalid("typed index value is not valid for declared type"@))
            } else if !row.contains_key(name) {
                Ok(None)
            } else if !(f.op is Eq) || !value_eq(row[name], f.value) {
                Ok(Some(from))
            } else {
                settled_lead(fields, fs, row, from + 1)
            },
        }
    }
}

/// Whether a row meets the filters on fields beyond the settled ones.
pub open spec fn rest_met(
    fields: Seq<(Seq<char>, IndexType)>,
    fs: Seq<FilterV>,
    row: Map<Seq<char>, TypedV>,
    lead: int,
) -> Result<bool, ErrorV>
    decreases fs.len(),
{
    if fs.len() == 0 {
        Ok(true)
    } else {
        let f = fs[0];
        let at = field_at(fields, f.field, 0);
        if at >= fields.len() {
            Err(ErrorV::Invalid("unindexed-field"@))
        } else if at < lead {
            rest_met(fields, fs.drop_first(), row, lead)
        } else if !row.contains_key(f.field) {
            Ok(false)
        } else if type_of(f.value) != fields[at].1 {
            Err(ErrorV::Invalid("typed index value is not valid for declared type"@))
        } else {
            match compared(row[f.field], f.value) {
                Err(e) => Err(e),
                Ok(s) => if op_holds(f.op, s) {
                    rest_met(fields, fs.drop_first(), row, lead)
                } else {
                    Ok(false)
                },
            }
        }
    }
}

/// Whether a row meets the filters.
pub open spec fn row_meets(
    fields: Seq<(Seq<char>, IndexType)>,
    fs: Seq<FilterV>,
    row: Map<Seq<char>, TypedV>,
) -> Result<bool, ErrorV> {
    match settled_lead(fields, fs, row, 0) {
        Err(e) => Err(e),
        Ok(None) => Ok(false),
        Ok(Some(lead)) => rest_met(fields, fs, row, lead),
    }
}

fn find_last_filter<'a>(filters: &'a Vec<QueryFilter>, name: &str) -> (r: Option<&'a QueryFilter>)
    ensures
        (match r {
            Some(f) => Some(f@),
            None => None,
        }) == last_filter(filters_v(filters@), name@),
{
    let ghost all = filters_v(filters@);
    let mut i: usize = filters.len();
    assert(all.take(i as int) =~= all);
    while i > 0
        invariant
            i <= filters@.len(),
            all == filters_v(filters@),
            last_filter(all, name@) == last_filter(all.take(i as int), name@),
        decreases i,
    {
        proof {
            assert(all.take(i as int).last() == filters@[i as int - 1]@);
            assert(all.take(i as int).drop_last() =~= all.take(i as int - 1));
        }
        i = i - 1;
        if same_text(filters[i].field.as_str(), name) {
            return Some(&filters[i]);
        }
    }
    None
}

fn lead_of(fields: &Vec<IndexField>, filters: &Vec<QueryFilter>, row: &RangeScanRow) -> (r:
    EngineResult<Option<usize>>)
    ensures
        match r {
            Err(e) => settled_lead(
                index_fields_v(fields@),
                filters_v(filters@),
                row@.fields,
                0,
            ) == Err::<Option<int>, ErrorV>(e@),
            Ok(None) => settled_lead(
                index_fields_v(fields@),
                filters_v(filters@),
                row@.fields,
                0,
            ) == Ok::<Option<int>, ErrorV>(None),
            Ok(Some(n)) => settled_lead(
                index_fields_v(fields@),
                filters_v(filters@),
                row@.fields,
                0,
            ) == Ok::<Option<int>, ErrorV>(Some(n as int)),
        },
{
    let ghost all = index_fields_v(fields@);
    let ghost fs = filters_v(filters@);
    let mut i: usize = 0;
    while i < fields.len()
        invariant
            i <= fields@.len(),
            all == index_fields_v(fields@),
            fs == filters_v(filters@),
            settled_lead(all, fs, row@.fields, 0) == settled_lead(all, fs, row@.fields, i as int),
        decreases fields@.len() - i,
    {
        assert(all[i as int] == (fields@[i as int].field@, fields@[i as int].index_type));
        let f = match find_last_filter(filters, fields[i].field.as_str()) {
            None => return Ok(Some(i)),
            Some(f) => f,
        };
        if type_of_value(&f.value) != fields[i].index_type {
            return Err(EngineError::Invalid("typed index value is not valid for declared type"));
        }
        let value = match row.fields.get(&fields[i].field) {
            None => return Ok(None),
            Some(v) => v,
        };
        let equality = match f.op {
            FilterOp::Eq => true,
            _ => false,
        };
        if !equality || !typed_value_matches_query(value, &f.value) {
            return Ok(Some(i));
        }
        i = i + 1;
    }
    Ok(Some(i))
}

/// Whether a row meets the filters.
pub fn range_scan_matches(
    fields: &Vec<IndexField>,
    filters: &Vec<QueryFilter>,
    row: &RangeScanRow,
) -> (r: EngineResult<bool>)
    ensures
        outcome(r) == row_meets(index_fields_v(fields@), filters_v(filters@), row@.fields),
{
    let ghost all = index_fields_v(fields@);
    let ghost fs = filters_v(filters@);
    let lead = match lead_of(fields, filters, row) {
        Err(e) => return Err(e),
        Ok(None) => return Ok(false),
        Ok(Some(n)) => n,
    };
    let mut i: usize = 0;
    assert(fs.skip(0) =~= fs);
    while i < filters.len()
        invariant
            i <= filters@.len(),
            all == index_fields_v(fields@),
            fs == filters_v(filters@),
            row_meets(all, fs, row@.fields) == rest_met(all, fs, row@.fields, lead as int),
            rest_met(all, fs, row@.fields, lead as int) == rest_met(
                all,
                fs.skip(i as int),
                row@.fields,
                lead as int,
            ),
        decreases filters@.len() - i,
    {
        let f = &filters[i];
        proof {
            assert(fs.skip(i as int)[0] == f@);
            assert(fs.skip(i as int).drop_first() =~= fs.skip(i as int + 1));
        }
        let at = find_field(fields, f.field.as_str());
        if at >= fields.len() {
            return Err(EngineError::Invalid("unindexed-field"));
        }
        assert(all[at as int] == (fields@[at as int].field@, fields@[at as int].index_type));
        if at >= lead {
            let value = match row.fields.get(&f.field) {
                None => return Ok(false),
                Some(v) => v,
            };
            if type_of_value(&f.value) != fields[at].index_type {
                return Err(
                    EngineError::Invalid("typed index value is not valid for declared type"),
                );
            }
            match typed_value_compare(value, &f.value) {
                Err(e) => return Err(e),
                Ok(s) => if !op_accepts(f.op, s) {
                    return Ok(false);
                },
            }
        }
        i = i + 1;
    }
    Ok(true)
}

/// One value of two rows decides their order.
pub open spec fn field_before(o: OrderV, a: RowV, b: RowV) -> bool {
    a.fields.contains_key(o.field) && b.fields.contains_key(o.field) && if o.direction is Descending {
        value_lt(b.fields[o.field], a.fields[o.field])
    } else {
        value_lt(a.fields[o.field], b.fields[o.field])
    }
}

/// One row comes before another: by the first value in which they differ, or else by identifier.
pub open spec fn row_before(order: Seq<OrderV>, a: RowV, b: RowV) -> bool
    decreases order.len(),
{
    if order.len() == 0 {
        a.item_id < b.item_id
    } else if field_before(order[0], a, b) {
        true
    } else if field_before(order[0], b, a) {
        false
    } else {
        row_before(order.drop_first(), a, b)
    }
}

fn field_comes_before(o: &OrderField, a: &RangeScanRow, b: &RangeScanRow) -> (r: bool)
    ensures
        r == field_before(o@, a@, b@),
{
    match (a.fields.get(&o.field), b.fields.get(&o.field)) {
        (Some(x), Some(y)) => match o.direction {
            SortDirection::Descending => match stand_values(y, x) {
                Standing::Below => true,
                _ => false,
            },
            SortDirection::Ascending => match stand_values(x, y) {
                Standing::Below => true,
                _ => false,
            },
        },
        _ => false,
    }
}

/// Whether one row comes before another.
pub fn compare_rows(order_by: &Vec<OrderField>, a: &RangeScanRow, b: &RangeScanRow) -> (r: bool)
    ensures
        r == row_before(orders_v(order_by@), a@, b@),
{
    let ghost all = orders_v(order_by@);
    let mut i: usize = 0;
    assert(all.skip(0) =~= all);
    while i < order_by.len()
        invariant
            i <= order_by@.len(),
            all == orders_v(order_by@),
            row_before(all, a@, b@) == row_before(all.skip(i as int), a@, b@),
        decreases order_by@.len() - i,
    {
        proof {
            assert(all.skip(i as int)[0] == order_by@[i as int]@);
            assert(all.skip(i as int).drop_first() =~= all.skip(i as int + 1));
        }
        if field_comes_before(&order_by[i], a, b) {
            return true;
        }
        if field_comes_before(&order_by[i], b, a) {
            return false;
        }
        i = i + 1;
    }
    a.item_id < b.item_id
}

/// Where a row goes among rows in order: before the first that comes after it.
pub open spec fn row_slot(order: Seq<OrderV>, rows: Seq<RowV>, r: RowV, from: int) -> int
    decreases rows.len() - from,
{
    if from < 0 || from >= rows.len() {
        rows.len() as int
    } else if row_before(order, r, rows[from]) {
        from
    } else {
        row_slot(order, rows, r, from + 1)
    }
}

/// The rows in order.
pub open spec fn rows_ordered(order: Seq<OrderV>, rows: Seq<RowV>) -> Seq<RowV>
    decreases rows.len(),
{
    if rows.len() == 0 {
        Seq::empty()
    } else {
        let before = rows_ordered(order, rows.drop_last());
        before.insert(row_slot(order, before, rows.last(), 0), rows.last())
    }
}

/// The rows of the items that meet the filters, by identifier.
pub open spec fn rows_found(
    items: Map<ItemId, Item>,
    fields: Seq<(Seq<char>, IndexType)>,
    fs: Seq<FilterV>,
    ids: Seq<ItemId>,
) -> Result<Seq<RowV>, ErrorV>
    decreases ids.len(),
{
    if ids.len() == 0 {
        Ok(Seq::empty())
    } else {
        match rows_found(items, fields, fs, ids.drop_last()) {
            Err(e) => Err(e),
            Ok(rows) => {
                let i = items[ids.last()];
                match i.entity {
                    None => Ok(rows),
                    Some(e) => match row_values(fields, e.document) {
                        Err(x) => Err(x),
                        Ok(None) => Ok(rows),
                        Ok(Some(values)) => match row_meets(fields, fs, values) {
                            Err(x) => Err(x),
                            Ok(false) => Ok(rows),
                            Ok(true) => Ok(
                                rows.push(RowV { item_id: ids.last(), fields: values }),
                            ),
                        },
                    },
                }
            },
        }
    }
}

pub(crate) proof fn lemma_found_stops(
    items: Map<ItemId, Item>,
    fields: Seq<(Seq<char>, IndexType)>,
    fs: Seq<FilterV>,
    ids: Seq<ItemId>,
    n: int,
)
    requires
        0 <= n <= ids.len(),
        rows_found(items, fields, fs, ids.take(n)) is Err,
    ensures
        rows_found(items, fields, fs, ids) == rows_found(items, fields, fs, ids.take(n)),
    decreases ids.len() - n,
{
    if n == ids.len() {
        assert(ids.take(n) =~= ids);
    } else {
        assert(ids.take(n + 1).drop_last() =~= ids.take(n));
        lemma_found_stops(items, fields, fs, ids, n + 1);
    }
}

/// The filters of a cursor are those of the request.
pub open spec fn same_filters(a: Seq<FilterV>, b: Seq<FilterV>) -> bool {
    a.len() == b.len() && forall|i: int|
        0 <= i < a.len() ==> (#[trigger] a[i]).field == b[i].field && a[i].op == b[i].op && value_eq(
            a[i].value,
            b[i].value,
        )
}

/// The cursor belongs to this scan.
pub open spec fn cursor_fits(c: CursorV, name: Seq<char>, q: ScanV) -> bool {
    c.index == name && same_filters(c.filters, q.filters) && c.order_by == q.order_by
}

/// The place of the row of an item, or the number of rows.
pub open spec fn row_at(rows: Seq<RowV>, id: ItemId, from: int) -> int
    decreases rows.len() - from,
{
    if from < 0 || from >= rows.len() {
        rows.len() as int
    } else if rows[from].item_id == id {
        from
    } else {
        row_at(rows, id, from + 1)
    }
}

/// The values by which a row stands in the order.
pub open spec fn order_values(order: Seq<OrderV>, r: RowV) -> Seq<TypedV> {
    order.map_values(|o: OrderV| r.fields[o.field])
}

pub open spec fn same_value_lists(a: Seq<TypedV>, b: Seq<TypedV>) -> bool {
    a.len() == b.len() && forall|i: int| 0 <= i < a.len() ==> value_eq(#[trigger] a[i], b[i])
}

/// Where the page starts.
pub open spec fn page_start(rows: Seq<RowV>, order: Seq<OrderV>, cursor: CursorArgV) -> Option<int> {
    match cursor {
        CursorArgV::After(c) => {
            let at = row_at(rows, c.anchor_item_id, 0);
            if at < rows.len() && same_value_lists(order_values(order, rows[at]), c.anchor_values) {
                Some(at + 1)
            } else {
                None
            }
        },
        _ => Some(0),
    }
}

/// The page that starts there, with the cursor to the next one where rows are left.
pub open spec fn page_of(rows: Seq<RowV>, start: int, name: Seq<char>, q: ScanV) -> (
    Seq<RowV>,
    Option<CursorV>,
) {
    let end = if start + q.page_size < rows.len() {
        start + q.page_size
    } else {
        rows.len() as int
    };
    let page = rows.subrange(start, end);
    (
        page,
        if end < rows.len() {
            Some(
                CursorV {
                    index: name,
                    filters: q.filters,
                    order_by: q.order_by,
                    anchor_item_id: page.last().item_id,
                    anchor_values: order_values(q.order_by, page.last()),
                    anchor_index_key: None,
                },
            )
        } else {
            None
        },
    )
}

/// Why the order that is asked for cannot be had, if so.
pub open spec fn order_fault(fields: Seq<(Seq<char>, IndexType)>, order: Seq<OrderV>) -> Option<
    ErrorV,
> {
    if order.len() == 0 {
        Some(ErrorV::Invalid("range-scan order_by required"@))
    } else if exists|i: int|
        0 <= i < order.len() && field_at(fields, (#[trigger] order[i]).field, 0) >= fields.len() {
        Some(ErrorV::Invalid("unindexed-field"@))
    } else if exists|i: int|
        0 <= i < order.len() && (#[trigger] order[i]).direction != order[0].direction {
        Some(ErrorV::Invalid("mixed order directions are unsupported"@))
    } else {
        None
    }
}

/// The rows that a scan goes through, in order.
pub open spec fn scan_rows(m: Model, fields: Seq<(Seq<char>, IndexType)>, q: ScanV) -> Result<
    Seq<RowV>,
    ErrorV,
> {
    match rows_found(m.items, fields, q.filters, listing_of::<u64>(m.items.dom())) {
        Err(e) => Err(e),
        Ok(rows) => Ok(rows_ordered(q.order_by, rows)),
    }
}

/// What a scan gives.
pub open spec fn scanned(m: Model, q: ScanV) -> Result<(Seq<RowV>, Option<CursorV>), ErrorV> {
    if q.page_size == 0 || q.page_size > MAX_PAGE_SIZE {
        Err(ErrorV::Invalid("invalid page size"@))
    } else {
        match typed_named(m.typed_index_specs, q.index) {
            Err(e) => Err(e),
            Ok(at) => {
                let spec_at = m.typed_index_specs[at];
                match order_fault(spec_at.fields, q.order_by) {
                    Some(e) => Err(e),
                    None => if q.cursor is Unreadable || (q.cursor is After && !cursor_fits(
                        q.cursor->After_0,
                        spec_at.name,
                        q,
                    )) {
                        Err(ErrorV::Invalid("cursor-invalidated"@))
                    } else {
                        match scan_rows(m, spec_at.fields, q) {
                            Err(e) => Err(e),
                            Ok(rows) => match page_start(rows, q.order_by, q.cursor) {
                                None => Err(ErrorV::Invalid("cursor-invalidated"@)),
                                Some(start) => Ok(page_of(rows, start, spec_at.name, q)),
                            },
                        }
                    },
                }
            },
        }
    }
}

fn find_slot(order_by: &Vec<OrderField>, rows: &Vec<RangeScanRow>, row: &RangeScanRow) -> (r: usize)
    ensures
        r == row_slot(orders_v(order_by@), rows_v(rows@), row@, 0),
        r <= rows@.len(),
{
    let ghost order = orders_v(order_by@);
    let ghost all = rows_v(rows@);
    let mut i: usize = 0;
    while i < rows.len()
        invariant
            i <= rows@.len(),
            order == orders_v(order_by@),
            all == rows_v(rows@),
            row_slot(order, all, row@, 0) == row_slot(order, all, row@, i as int),
        decreases rows@.len() - i,
    {
        assert(all[i as int] == rows@[i as int]@);
        if compare_rows(order_by, row, &rows[i]) {
            return i;
        }
        i = i + 1;
    }
    i
}

fn filters_agree(a: &Vec<QueryFilter>, b: &Vec<QueryFilter>) -> (r: bool)
    ensures
        r == same_filters(filters_v(a@), filters_v(b@)),
{
    let ghost x = filters_v(a@);
    let ghost y = filters_v(b@);
    if a.len() != b.len() {
        assert(x.len() != y.len());
        return false;
    }
    let mut i: usize = 0;
    while i < a.len()
        invariant
            i <= a@.len(),
            a@.len() == b@.len(),
            x == filters_v(a@),
            y == filters_v(b@),
            forall|j: int|
                0 <= j < i ==> (#[trigger] x[j]).field == y[j].field && x[j].op == y[j].op
                    && value_eq(x[j].value, y[j].value),
        decreases a@.len() - i,
    {
        assert(x[i as int] == a@[i as int]@ && y[i as int] == b@[i as int]@);
        let same = same_text(a[i].field.as_str(), b[i].field.as_str()) && a[i].op == b[i].op
            && same_values(&a[i].value, &b[i].value);
        if !same {
            return false;
        }
        i = i + 1;
    }
    true
}

fn orders_agree(a: &Vec<OrderField>, b: &Vec<OrderField>) -> (r: bool)
    ensures
        r == (orders_v(a@) == orders_v(b@)),
{
    let ghost x = orders_v(a@);
    let ghost y = orders_v(b@);
    if a.len() != b.len() {
        assert(x.len() != y.len());
        return false;
    }
    let mut i: usize = 0;
    while i < a.len()
        invariant
            i <= a@.len(),
            a@.len() == b@.len(),
            x == orders_v(a@),
            y == orders_v(b@),
            forall|j: int| 0 <= j < i ==> x[j] == y[j],
        decreases a@.len() - i,
    {
        assert(x[i as int] == a@[i as int]@ && y[i as int] == b@[i as int]@);
        let same = same_text(a[i].field.as_str(), b[i].field.as_str()) && a[i].direction
            == b[i].direction;
        if !same {
            assert(x[i as int] != y[i as int]);
            return false;
        }
        i = i + 1;
    }
    assert(x =~= y);
    true
}

/// The values by which a row stands in the order.
fn values_in_order(order_by: &Vec<OrderField>, row: &RangeScanRow) -> (r: Vec<TypedValue>)
    requires
        forall|i: int|
            0 <= i < order_by@.len() ==> row@.fields.contains_key(
                (#[trigger] orders_v(order_by@)[i]).field,
            ),
    ensures
        typed_values_v(r@) == order_values(orders_v(order_by@), row@),
{
    let ghost all = order_values(orders_v(order_by@), row@);
    let mut out: Vec<TypedValue> = Vec::new();
    let mut i: usize = 0;
    assert(typed_values_v(out@) =~= all.take(0));
    while i < order_by.len()
        invariant
            i <= order_by@.len(),
            all == order_values(orders_v(order_by@), row@),
            typed_values_v(out@) == all.take(i as int),
            forall|j: int|
                0 <= j < order_by@.len() ==> row@.fields.contains_key(
                    (#[trigger] orders_v(order_by@)[j]).field,
                ),
        decreases order_by@.len() - i,
    {
        assert(orders_v(order_by@)[i as int] == order_by@[i as int]@);
        assert(row@.fields.contains_key(orders_v(order_by@)[i as int].field));
        match row.fields.get(&order_by[i].field) {
            Some(v) => {
                let ghost before = out@;
                let d = v.duplicate();
                out.push(d);
                assert(typed_values_v(out@) =~= typed_values_v(before).push(d@));
            },
            None => {},
        }
        assert(all.take(i as int + 1) =~= all.take(i as int).push(all[i as int]));
        i = i + 1;
    }
    assert(all.take(i as int) =~= all);
    out
}

fn value_lists_agree(a: &Vec<TypedValue>, b: &Vec<TypedValue>) -> (r: bool)
    ensures
        r == same_value_lists(typed_values_v(a@), typed_values_v(b@)),
{
    let ghost x = typed_values_v(a@);
    let ghost y = typed_values_v(b@);
    if a.len() != b.len() {
        assert(x.len() != y.len());
        return false;
    }
    let mut i: usize = 0;
    while i < a.len()
        invariant
            i <= a@.len(),
            a@.len() == b@.len(),
            x == typed_values_v(a@),
            y == typed_values_v(b@),
            forall|j: int| 0 <= j < i ==> value_eq(#[trigger] x[j], y[j]),
        decreases a@.len() - i,
    {
        assert(x[i as int] == a@[i as int]@ && y[i as int] == b@[i as int]@);
        if !same_values(&a[i], &b[i]) {
            return false;
        }
        i = i + 1;
    }
    true
}

fn check_order(fields: &Vec<IndexField>, order_by: &Vec<OrderField>) -> (r: EngineResult<()>)
    ensures
        match r {
            Ok(_) => order_fault(index_fields_v(fields@), orders_v(order_by@)) is None,
            Err(e) => order_fault(index_fields_v(fields@), orders_v(order_by@)) == Some(e@),
        },
{
    let ghost all = index_fields_v(fields@);
    let ghost order = orders_v(order_by@);
    if order_by.len() == 0 {
        return Err(EngineError::Invalid("range-scan order_by required"));
    }
    let mut i: usize = 0;
    while i < order_by.len()
        invariant
            i <= order_by@.len(),
            all == index_fields_v(fields@),
            order == orders_v(order_by@),
            order_by@.len() > 0,
            forall|j: int|
                0 <= j < i ==> field_at(all, (#[trigger] order[j]).field, 0) < all.len(),
        decreases order_by@.len() - i,
    {
        assert(order[i as int] == order_by@[i as int]@);
        if find_field(fields, order_by[i].field.as_str()) >= fields.len() {
            assert(field_at(all, order[i as int].field, 0) >= all.len());
            return Err(EngineError::Invalid("unindexed-field"));
        }
        i = i + 1;
    }
    assert(order[0] == order_by@[0]@);
    let first = order_by[0].direction;
    let mut k: usize = 0;
    while k < order_by.len()
        invariant
            k <= order_by@.len(),
            order == orders_v(order_by@),
            order_by@.len() > 0,
            first == order[0].direction,
            forall|j: int|
                0 <= j < order.len() ==> field_at(all, (#[trigger] order[j]).field, 0) < all.len(),
            all == index_fields_v(fields@),
            forall|j: int| 0 <= j < k ==> (#[trigger] order[j]).direction == order[0].direction,
        decreases order_by@.len() - k,
    {
        assert(order[k as int] == order_by@[k as int]@);
        if order_by[k].direction != first {
            assert(order[k as int].direction != order[0].direction);
            return Err(EngineError::Invalid("mixed order directions are unsupported"));
        }
        k = k + 1;
    }
    Ok(())
}

/// Every row has the values that it is ordered by.
pub open spec fn rows_cover(order: Seq<OrderV>, rows: Seq<RowV>) -> bool {
    forall|k: int, i: int|
        0 <= k < rows.len() && 0 <= i < order.len() ==> (#[trigger] rows[k]).fields.contains_key(
            (#[trigger] order[i]).field,
        )
}

pub proof fn lemma_field_at(fields: Seq<(Seq<char>, IndexType)>, name: Seq<char>, from: int)
    requires
        0 <= from,
        field_at(fields, name, from) < fields.len(),
    ensures
        0 <= field_at(fields, name, from),
        fields[field_at(fields, name, from)].0 == name,
    decreases fields.len() - from,
{
    if from < fields.len() && fields[from].0 != name {
        lemma_field_at(fields, name, from + 1);
    }
}

proof fn lemma_insert_covers(order: Seq<OrderV>, rows: Seq<RowV>, at: int, r: RowV)
    requires
        rows_cover(order, rows),
        0 <= at <= rows.len(),
        forall|i: int| 0 <= i < order.len() ==> r.fields.contains_key((#[trigger] order[i]).field),
    ensures
        rows_cover(order, rows.insert(at, r)),
{
    let more = rows.insert(at, r);
    assert forall|k: int, i: int| 0 <= k < more.len() && 0 <= i < order.len() implies (
    #[trigger] more[k]).fields.contains_key((#[trigger] order[i]).field) by {
        if k < at {
            assert(more[k] == rows[k]);
        } else if k > at {
            assert(more[k] == rows[k - 1]);
        }
    }
}

impl ProjectionData {
    /// The rows of a scan, in order.
    fn collect_rows(
        &self,
        fields: &Vec<IndexField>,
        filters: &Vec<QueryFilter>,
        order_by: &Vec<OrderField>,
    ) -> (r: EngineResult<Vec<RangeScanRow>>)
        requires
            order_fault(index_fields_v(fields@), orders_v(order_by@)) is None,
        ensures
            ({
                let found = rows_found(
                    self@.items,
                    index_fields_v(fields@),
                    filters_v(filters@),
                    listing_of::<u64>(self@.items.dom()),
                );
                match r {
                    Err(e) => found == Err::<Seq<RowV>, ErrorV>(e@),
                    Ok(rows) => found is Ok && rows_v(rows@) == rows_ordered(
                        orders_v(order_by@),
                        found->Ok_0,
                    ) && rows_cover(orders_v(order_by@), rows_v(rows@)),
                }
            }),
    {
        let ghost all = index_fields_v(fields@);
        let ghost fs = filters_v(filters@);
        let ghost order = orders_v(order_by@);
        let ids = self.all_ids();
        let mut rows: Vec<RangeScanRow> = Vec::new();
        let mut i: usize = 0;
        assert(ids@.take(0) =~= Seq::<ItemId>::empty());
        assert(rows_v(rows@) =~= Seq::<RowV>::empty());
        while i < ids.len()
            invariant
                i <= ids@.len(),
                all == index_fields_v(fields@),
                fs == filters_v(filters@),
                order == orders_v(order_by@),
                order_fault(all, order) is None,
                ids@ == listing_of::<u64>(self@.items.dom()),
                ids@.to_set() == self@.items.dom(),
                rows_found(self@.items, all, fs, ids@.take(i as int)) is Ok,
                rows_v(rows@) == rows_ordered(
                    order,
                    rows_found(self@.items, all, fs, ids@.take(i as int))->Ok_0,
                ),
                rows_cover(order, rows_v(rows@)),
            decreases ids@.len() - i,
        {
            let id = ids[i];
            let ghost so_far = rows_found(self@.items, all, fs, ids@.take(i as int))->Ok_0;
            proof {
                assert(ids@.take(i as int + 1).drop_last() =~= ids@.take(i as int));
                assert(ids@.take(i as int + 1).last() == id);
                assert(ids@.to_set().contains(id));
            }
            match self.record(id) {
                None => {},
                Some(rec) => match &rec.entity_document {
                    None => {},
                    Some(entity) => match range_scan_row(fields, id, &entity.document) {
                        Err(e) => {
                            proof {
                                lemma_found_stops(self@.items, all, fs, ids@, i as int + 1);
                            }
                            return Err(e);
                        },
                        Ok(None) => {},
                        Ok(Some(row)) => match range_scan_matches(fields, filters, &row) {
                            Err(e) => {
                                proof {
                                    lemma_found_stops(self@.items, all, fs, ids@, i as int + 1);
                                }
                                return Err(e);
                            },
                            Ok(false) => {},
                            Ok(true) => {
                                let at = find_slot(order_by, &rows, &row);
                                let ghost before = rows@;
                                proof {
                                    assert forall|k: int| 0 <= k < order.len() implies row@.fields.contains_key(
                                        (#[trigger] order[k]).field,
                                    ) by {
                                        lemma_field_at(all, order[k].field, 0);
                                        lemma_row_covers(
                                            all,
                                            entity.document@,
                                            field_at(all, order[k].field, 0),
                                        );
                                    }
                                    lemma_insert_covers(order, rows_v(before), at as int, row@);
                                    assert(so_far.push(row@).drop_last() =~= so_far);
                                }
                                rows.insert(at, row);
                                assert(rows_v(rows@) =~= rows_v(before).insert(at as int, row@));
                            },
                        },
                    },
                },
            }
            i = i + 1;
        }
        assert(ids@.take(i as int) =~= ids@);
        Ok(rows)
    }

    fn locate_start(
        rows: &Vec<RangeScanRow>,
        order_by: &Vec<OrderField>,
        cursor: &QueryCursor,
    ) -> (r: Option<usize>)
        requires
            rows_cover(orders_v(order_by@), rows_v(rows@)),
        ensures
            (match r {
                Some(n) => Some(n as int),
                None => None,
            }) == page_start(rows_v(rows@), orders_v(order_by@), cursor@),
            r is Some ==> r->Some_0 <= rows@.len(),
    {
        let state = match cursor {
            QueryCursor::After(c) => c,
            _ => return Some(0),
        };
        let ghost all = rows_v(rows@);
        let n = rows.len();
        let mut i: usize = 0;
        while i < n
            invariant
                i <= n,
                n == rows@.len(),
                all == rows_v(rows@),
                *cursor == QueryCursor::After(*state),
                rows_cover(orders_v(order_by@), all),
                row_at(all, state.anchor_item_id, 0) == row_at(
                    all,
                    state.anchor_item_id,
                    i as int,
                ),
            decreases n - i,
        {
            assert(all[i as int] == rows@[i as int]@);
            if rows[i].item_id == state.anchor_item_id {
                let values = values_in_order(order_by, &rows[i]);
                if value_lists_agree(&values, &state.anchor_values) {
                    return Some(i + 1);
                }
                return None;
            }
            i = i + 1;
        }
        None
    }

    /// One page of an ordered scan over a typed index.
    pub fn range_scan(&self, request: &RangeScanRequest) -> (r: EngineResult<RangeScanResponse>)
        ensures
            (match r {
                Ok(p) => Ok(response_v(p)),
                Err(e) => Err(e@),
            }) == scanned(self@, request@),
    {
        if request.page_size == 0 || request.page_size > MAX_PAGE_SIZE {
            return Err(EngineError::Invalid("invalid page size"));
        }
        let at = match find_typed_index(&self.typed_index_specs, &request.index) {
            Ok(at) => at,
            Err(e) => return Err(e),
        };
        let index = &self.typed_index_specs[at];
        assert(self@.typed_index_specs[at as int] == index@);
        match check_order(&index.fields, &request.order_by) {
            Ok(_) => {},
            Err(e) => return Err(e),
        }
        match &request.cursor {
            QueryCursor::Start => {},
            QueryCursor::Unreadable => return Err(EngineError::Invalid("cursor-invalidated")),
            QueryCursor::After(c) => {
                let fits = same_text(c.index.as_str(), index.name.as_str()) && filters_agree(
                    &c.filters,
                    &request.filters,
                ) && orders_agree(&c.order_by, &request.order_by);
                if !fits {
                    return Err(EngineError::Invalid("cursor-invalidated"));
                }
            },
        }
        let mut rows = match self.collect_rows(
            &index.fields,
            &request.filters,
            &request.order_by,
        ) {
            Ok(rows) => rows,
            Err(e) => return Err(e),
        };
        let ghost all = rows_v(rows@);
        let start = match Self::locate_start(&rows, &request.order_by, &request.cursor) {
            Some(s) => s,
            None => return Err(EngineError::Invalid("cursor-invalidated")),
        };
        let mut page = rows.split_off(start);
        assert(rows_v(page@) =~= all.skip(start as int));
        let size = request.page_size as usize;
        if page.len() > size {
            page.truncate(size);
            proof {
                assert(rows_v(page@) =~= all.subrange(start as int, start + size));
                assert(rows_v(page@).last() == page@[size - 1]@);
                assert forall|i: int| 0 <= i < request.order_by@.len() implies page@[size
                    - 1]@.fields.contains_key(
                    (#[trigger] orders_v(request.order_by@)[i]).field,
                ) by {
                    assert(all[start + size - 1] == page@[size - 1]@);
                }
            }
            let last = &page[size - 1];
            let anchor_item_id = last.item_id;
            let anchor_values = values_in_order(&request.order_by, last);
            let next = RangeScanCursorState {
                index: index.name.clone(),
                filters: copy_filters(&request.filters),
                order_by: copy_orders(&request.order_by),
                anchor_item_id,
                anchor_values,
                anchor_index_key: None,
            };
            return Ok(RangeScanResponse { rows: page, next_cursor: Some(next) });
        }
        assert(rows_v(page@) =~= all.subrange(start as int, all.len() as int));
        Ok(RangeScanResponse { rows: page, next_cursor: None })
    }
}

pub fn copy_filters(v: &Vec<QueryFilter>) -> (r: Vec<QueryFilter>)
    ensures
        filters_v(r@) == filters_v(v@),
{
    let ghost all = filters_v(v@);
    let mut out: Vec<QueryFilter> = Vec::new();
    let mut i: usize = 0;
    assert(filters_v(out@) =~= all.take(0));
    while i < v.len()
        invariant
            i <= v@.len(),
            all == filters_v(v@),
            filters_v(out@) == all.take(i as int),
        decreases v@.len() - i,
    {
        let ghost before = out@;
        let f = v[i].duplicate();
        out.push(f);
        assert(filters_v(out@) =~= filters_v(before).push(f@));
        assert(all.take(i as int + 1) =~= all.take(i as int).push(all[i as int]));
        i = i + 1;
    }
    assert(all.take(i as int) =~= all);
    out
}

fn copy_orders(v: &Vec<OrderField>) -> (r: Vec<OrderField>)
    ensures
        orders_v(r@) == orders_v(v@),
{
    let ghost all = orders_v(v@);
    let mut out: Vec<OrderField> = Vec::new();
    let mut i: usize = 0;
    assert(orders_v(out@) =~= all.take(0));
    while i < v.len()
        invariant
            i <= v@.len(),
            all == orders_v(v@),
            orders_v(out@) == all.take(i as int),
        decreases v@.len() - i,
    {
        let ghost before = out@;
        let o = v[i].duplicate();
        out.push(o);
        assert(orders_v(out@) =~= orders_v(before).push(o@));
        assert(all.take(i as int + 1) =~= all.take(i as int).push(all[i as int]));
        i = i + 1;
    }
    assert(all.take(i as int) =~= all);
    out
}

/// The row has the values that it is ordered by.
pub open spec fn row_covers(order: Seq<OrderV>, r: RowV) -> bool {
    forall|i: int| 0 <= i < order.len() ==> r.fields.contains_key((#[trigger] order[i]).field)
}

/// Rows order strictly and totally.
proof fn lemma_rows_strict(order: Seq<OrderV>, a: RowV, b: RowV, c: RowV)
    requires
        row_covers(order, a),
        row_covers(order, b),
        row_covers(order, c),
    ensures
        row_before(order, a, b) ==> !row_before(order, b, a),
        row_before(order, a, b) && row_before(order, b, c) ==> row_before(order, a, c),
        a.item_id != b.item_id ==> row_before(order, a, b) || row_before(order, b, a),
    decreases order.len(),
{
    if order.len() > 0 {
        let rest = order.drop_first();
        let f = order[0].field;
        assert(a.fields.contains_key(order[0].field) && b.fields.contains_key(order[0].field)
            && c.fields.contains_key(order[0].field));
        assert forall|i: int| 0 <= i < rest.len() implies a.fields.contains_key(
            (#[trigger] rest[i]).field,
        ) && b.fields.contains_key(rest[i].field) && c.fields.contains_key(rest[i].field) by {
            assert(rest[i] == order[i + 1]);
        }
        lemma_rows_strict(rest, a, b, c);
        let x = a.fields[f];
        let y = b.fields[f];
        let z = c.fields[f];
        law_values_are_ordered(x, y, z);
        law_values_are_ordered(z, y, x);
        law_values_are_ordered(y, x, z);
        law_values_are_ordered(y, z, x);
        law_values_are_ordered(x, z, y);
        law_values_are_ordered(z, x, y);
    }
}

/// Each row comes before every later one.
pub open spec fn in_order(order: Seq<OrderV>, rows: Seq<RowV>) -> bool {
    forall|i: int, j: int|
        0 <= i < j < rows.len() ==> row_before(order, #[trigger] rows[i], #[trigger] rows[j])
}

pub open spec fn distinct_rows(rows: Seq<RowV>) -> bool {
    forall|i: int, j: int|
        0 <= i < j < rows.len() ==> (#[trigger] rows[i]).item_id != (#[trigger] rows[j]).item_id
}

proof fn lemma_slot(order: Seq<OrderV>, rows: Seq<RowV>, r: RowV, from: int)
    requires
        0 <= from <= rows.len(),
    ensures
        from <= row_slot(order, rows, r, from) <= rows.len(),
        row_slot(order, rows, r, from) < rows.len() ==> row_before(
            order,
            r,
            rows[row_slot(order, rows, r, from)],
        ),
        forall|k: int|
            from <= k < row_slot(order, rows, r, from) ==> !row_before(order, r, #[trigger] rows[k]),
    decreases rows.len() - from,
{
    if from < rows.len() && !row_before(order, r, rows[from]) {
        lemma_slot(order, rows, r, from + 1);
    }
}

/// A scan keeps each row that it found, once, and puts each before every one that comes after it.
pub proof fn law_scan_is_ordered(order: Seq<OrderV>, rows: Seq<RowV>)
    requires
        rows_cover(order, rows),
        distinct_rows(rows),
    ensures
        in_order(order, rows_ordered(order, rows)),
        rows_ordered(order, rows).to_multiset() == rows.to_multiset(),
        rows_ordered(order, rows).len() == rows.len(),
        distinct_rows(rows_ordered(order, rows)),
        rows_cover(order, rows_ordered(order, rows)),
    decreases rows.len(),
{
    broadcast use vstd::seq_lib::group_to_multiset_ensures;

    if rows.len() > 0 {
        let less = rows.drop_last();
        let r = rows.last();
        assert(rows_cover(order, less)) by {
            assert forall|k: int, i: int| 0 <= k < less.len() && 0 <= i < order.len() implies (
            #[trigger] less[k]).fields.contains_key((#[trigger] order[i]).field) by {
                assert(less[k] == rows[k]);
            }
        }
        assert(distinct_rows(less)) by {
            assert forall|i: int, j: int| 0 <= i < j < less.len() implies (#[trigger] less[i]).item_id
                != (#[trigger] less[j]).item_id by {
                assert(less[i] == rows[i] && less[j] == rows[j]);
            }
        }
        law_scan_is_ordered(order, less);
        let s = rows_ordered(order, less);
        let at = row_slot(order, s, r, 0);
        lemma_slot(order, s, r, 0);
        let t = s.insert(at, r);
        assert(row_covers(order, r)) by {
            assert(rows[rows.len() - 1] == r);
        }
        lemma_insert_covers(order, s, at, r);
        assert forall|k: int| 0 <= k < s.len() implies (#[trigger] s[k]).item_id != r.item_id by {
            assert(s.to_multiset().contains(s[k]));
            assert(less.to_multiset().contains(s[k]));
            assert(less.contains(s[k]));
            let j = choose|j: int| 0 <= j < less.len() && less[j] == s[k];
            assert(rows[j] == less[j]);
            assert(rows[j].item_id != rows[rows.len() - 1].item_id);
        }
        assert forall|i: int, j: int| 0 <= i < j < t.len() implies row_before(
            order,
            #[trigger] t[i],
            #[trigger] t[j],
        ) && t[i].item_id != t[j].item_id by {
            if i < at {
                assert(t[i] == s[i]);
                assert(row_covers(order, s[i]));
                if j == at {
                    lemma_rows_strict(order, s[i], r, r);
                } else if j < at {
                    assert(t[j] == s[j]);
                } else {
                    assert(t[j] == s[j - 1]);
                }
            } else if i == at {
                assert(t[j] == s[j - 1]);
                assert(row_covers(order, s[j - 1]) && row_covers(order, s[at]));
                if j - 1 > at {
                    assert(row_before(order, s[at], s[j - 1]));
                    lemma_rows_strict(order, r, s[at], s[j - 1]);
                }
            } else {
                assert(t[i] == s[i - 1] && t[j] == s[j - 1]);
            }
        }
        assert(rows =~= less.push(r));
        lemma_insert_multiset(s, at, r);
        assert(t.to_multiset() =~= rows.to_multiset());
    }
}

proof fn lemma_insert_multiset(s: Seq<RowV>, at: int, r: RowV)
    requires
        0 <= at <= s.len(),
    ensures
        s.insert(at, r).to_multiset() =~= s.to_multiset().insert(r),
{
    broadcast use vstd::seq_lib::group_to_multiset_ensures;

    let a = s.take(at);
    let b = s.skip(at);
    assert(s =~= a + b);
    assert(s.insert(at, r) =~= a.push(r) + b);
    vstd::seq_lib::lemma_multiset_commutative(a, b);
    vstd::seq_lib::lemma_multiset_commutative(a.push(r), b);
}

proof fn lemma_row_at(rows: Seq<RowV>, k: int, from: int)
    requires
        0 <= from <= k < rows.len(),
        distinct_rows(rows),
    ensures
        row_at(rows, rows[k].item_id, from) == k,
    decreases k - from,
{
    if from < k {
        assert(rows[from].item_id != rows[k].item_id);
        lemma_row_at(rows, k, from + 1);
    }
}

/// The rows that were found are those of different items.
proof fn lemma_found_distinct(
    items: Map<ItemId, Item>,
    fields: Seq<(Seq<char>, IndexType)>,
    fs: Seq<FilterV>,
    ids: Seq<ItemId>,
)
    requires
        rows_found(items, fields, fs, ids) is Ok,
        ids.no_duplicates(),
    ensures
        distinct_rows(rows_found(items, fields, fs, ids)->Ok_0),
        forall|k: int|
            0 <= k < rows_found(items, fields, fs, ids)->Ok_0.len() ==> ids.contains(
                (#[trigger] rows_found(items, fields, fs, ids)->Ok_0[k]).item_id,
            ) && row_values(
                fields,
                items[rows_found(items, fields, fs, ids)->Ok_0[k].item_id].entity->Some_0.document,
            ) == Ok::<Option<Map<Seq<char>, TypedV>>, ErrorV>(
                Some(rows_found(items, fields, fs, ids)->Ok_0[k].fields),
            ),
    decreases ids.len(),
{
    if ids.len() > 0 {
        let less = ids.drop_last();
        lemma_found_distinct(items, fields, fs, less);
        let prior = rows_found(items, fields, fs, less)->Ok_0;
        let rows = rows_found(items, fields, fs, ids)->Ok_0;
        assert forall|k: int| 0 <= k < rows.len() implies ids.contains((#[trigger] rows[k]).item_id)
            && row_values(fields, items[rows[k].item_id].entity->Some_0.document) == Ok::<
            Option<Map<Seq<char>, TypedV>>,
            ErrorV,
        >(Some(rows[k].fields)) by {
            if k < prior.len() {
                assert(rows[k] == prior[k]);
                let j = choose|j: int| 0 <= j < less.len() && less[j] == prior[k].item_id;
                assert(ids[j] == less[j]);
            } else {
                assert(ids[ids.len() - 1] == rows[k].item_id);
            }
        }
        assert forall|i: int, j: int| 0 <= i < j < rows.len() implies (#[trigger] rows[i]).item_id
            != (#[trigger] rows[j]).item_id by {
            assert(rows[i] == prior[i]);
            if j < prior.len() {
                assert(rows[j] == prior[j]);
            } else {
                assert(less.contains(prior[i].item_id));
                let x = choose|x: int| 0 <= x < less.len() && less[x] == prior[i].item_id;
                assert(ids[x] != ids[ids.len() - 1]);
            }
        }
    }
}

/// Every value is the same as itself.
pub open spec fn values_plain(v: Seq<TypedV>) -> bool {
    forall|i: int| 0 <= i < v.len() ==> value_eq(#[trigger] v[i], v[i])
}

/// The row of an item, where it has one that meets the filters.
pub open spec fn matching_row(
    items: Map<ItemId, Item>,
    fields: Seq<(Seq<char>, IndexType)>,
    fs: Seq<FilterV>,
    id: ItemId,
) -> Option<RowV> {
    if !items.contains_key(id) || items[id].entity is None {
        None
    } else {
        match row_values(fields, items[id].entity->Some_0.document) {
            Ok(Some(values)) => if row_meets(fields, fs, values) == Ok::<bool, ErrorV>(true) {
                Some(RowV { item_id: id, fields: values })
            } else {
                None
            },
            _ => None,
        }
    }
}

/// Every row that meets the filters is found, and no other.
proof fn lemma_found_complete(
    items: Map<ItemId, Item>,
    fields: Seq<(Seq<char>, IndexType)>,
    fs: Seq<FilterV>,
    ids: Seq<ItemId>,
    row: RowV,
)
    requires
        rows_found(items, fields, fs, ids) is Ok,
        forall|k: int| 0 <= k < ids.len() ==> items.contains_key(#[trigger] ids[k]),
    ensures
        rows_found(items, fields, fs, ids)->Ok_0.contains(row) <==> ids.contains(row.item_id)
            && matching_row(items, fields, fs, row.item_id) == Some(row),
    decreases ids.len(),
{
    if ids.len() > 0 {
        let less = ids.drop_last();
        let id = ids.last();
        lemma_found_complete(items, fields, fs, less, row);
        let prior = rows_found(items, fields, fs, less)->Ok_0;
        let rows = rows_found(items, fields, fs, ids)->Ok_0;
        assert(ids[ids.len() - 1] == id);
        if less.contains(row.item_id) {
            let j = choose|j: int| 0 <= j < less.len() && less[j] == row.item_id;
            assert(ids[j] == row.item_id);
        }
        if prior.contains(row) {
            let j = choose|j: int| 0 <= j < prior.len() && prior[j] == row;
            assert(rows[j] == row);
        }
        if rows.contains(row) && !prior.contains(row) {
            let j = choose|j: int| 0 <= j < rows.len() && rows[j] == row;
            if j < prior.len() {
                assert(prior[j] == row);
            }
            assert(row.item_id == id);
        }
        if ids.contains(row.item_id) && matching_row(items, fields, fs, row.item_id) == Some(row)
            && !less.contains(row.item_id) {
            let j = choose|j: int| 0 <= j < ids.len() && ids[j] == row.item_id;
            if j < less.len() {
                assert(less[j] == row.item_id);
            }
            assert(row.item_id == id);
            assert(rows[rows.len() - 1] == row);
        }
    }
}

/// The rows of a scan that is accepted: every one that meets the filters, once each and in order.
pub proof fn law_scan_misses_no_row(m: Model, q: ScanV)
    requires
        m.items.dom().finite(),
        scanned(m, q) is Ok,
    ensures
        ({
            let at = m.typed_index_specs[typed_named(m.typed_index_specs, q.index)->Ok_0];
            let rows = scan_rows(m, at.fields, q)->Ok_0;
            &&& typed_named(m.typed_index_specs, q.index) is Ok
            &&& scan_rows(m, at.fields, q) is Ok
            &&& in_order(q.order_by, rows)
            &&& distinct_rows(rows)
            &&& forall|row: RowV| #[trigger]
                rows.contains(row) <==> matching_row(m.items, at.fields, q.filters, row.item_id)
                    == Some(row)
        }),
{
    let at = m.typed_index_specs[typed_named(m.typed_index_specs, q.index)->Ok_0];
    let ids = listing_of::<u64>(m.items.dom());
    let found = rows_found(m.items, at.fields, q.filters, ids)->Ok_0;
    let rows = scan_rows(m, at.fields, q)->Ok_0;
    lemma_listing_exists::<u64>(m.items.dom());
    lemma_ascending_distinct::<u64>(ids);
    lemma_found_distinct(m.items, at.fields, q.filters, ids);
    assert(rows_cover(q.order_by, found)) by {
        assert forall|k: int, i: int| 0 <= k < found.len() && 0 <= i < q.order_by.len() implies (
        #[trigger] found[k]).fields.contains_key((#[trigger] q.order_by[i]).field) by {
            lemma_field_at(at.fields, q.order_by[i].field, 0);
            lemma_row_covers(
                at.fields,
                m.items[found[k].item_id].entity->Some_0.document,
                field_at(at.fields, q.order_by[i].field, 0),
            );
        }
    }
    law_scan_is_ordered(q.order_by, found);
    assert forall|k: int| 0 <= k < ids.len() implies m.items.contains_key(#[trigger] ids[k]) by {
        assert(ids.to_set().contains(ids[k]));
    }
    assert forall|row: RowV| #[trigger]
        rows.contains(row) <==> matching_row(m.items, at.fields, q.filters, row.item_id) == Some(
        row,
    ) by {
        broadcast use vstd::seq_lib::group_to_multiset_ensures;

        lemma_found_complete(m.items, at.fields, q.filters, ids, row);
        assert(rows.contains(row) <==> rows.to_multiset().contains(row));
        assert(found.contains(row) <==> found.to_multiset().contains(row));
        if m.items.contains_key(row.item_id) {
            assert(ids.to_set().contains(row.item_id));
        }
    }
}

/// Requests that go through a scan page by page: each is accepted, the first starts, and each other
/// has the cursor that came with the page before, and a page size of its own.
pub open spec fn walked(m: Model, qs: Seq<ScanV>) -> bool {
    &&& qs.len() > 0
    &&& qs[0].cursor is Start
    &&& forall|k: int| 0 <= k < qs.len() ==> scanned(m, #[trigger] qs[k]) is Ok
    &&& forall|k: int| 0 < k < qs.len() ==> #[trigger] goes_on(m, qs, k)
}

/// The request at a position takes the scan up where the one before left it.
pub open spec fn goes_on(m: Model, qs: Seq<ScanV>, k: int) -> bool {
    let c = scanned(m, qs[k - 1])->Ok_0.1;
    c is Some && qs[k] == (ScanV {
        cursor: CursorArgV::After(c->Some_0),
        page_size: qs[k].page_size,
        ..qs[0]
    })
}

/// The rows of all pages, one page after another.
pub open spec fn all_pages(m: Model, qs: Seq<ScanV>) -> Seq<RowV>
    decreases qs.len(),
{
    if qs.len() == 0 {
        Seq::empty()
    } else {
        all_pages(m, qs.drop_last()) + scanned(m, qs.last())->Ok_0.0
    }
}

proof fn lemma_walk(m: Model, qs: Seq<ScanV>)
    requires
        m.items.dom().finite(),
        walked(m, qs),
    ensures
        ({
            let at = m.typed_index_specs[typed_named(m.typed_index_specs, qs[0].index)->Ok_0];
            let rows = scan_rows(m, at.fields, qs[0])->Ok_0;
            let seen = all_pages(m, qs);
            let cursor = scanned(m, qs.last())->Ok_0.1;
            &&& seen.len() <= rows.len()
            &&& seen == rows.take(seen.len() as int)
            &&& cursor is None <==> seen.len() == rows.len()
            &&& cursor is Some ==> seen.len() > 0 && cursor->Some_0.anchor_item_id
                == rows[seen.len() - 1].item_id
        }),
    decreases qs.len(),
{
    let at = m.typed_index_specs[typed_named(m.typed_index_specs, qs[0].index)->Ok_0];
    let rows = scan_rows(m, at.fields, qs[0])->Ok_0;
    assert(scanned(m, qs[0]) is Ok);
    law_scan_misses_no_row(m, qs[0]);
    let q = qs.last();
    let page = scanned(m, q)->Ok_0.0;
    let before = all_pages(m, qs.drop_last());
    assert(scanned(m, qs[qs.len() - 1]) is Ok);
    if qs.len() > 1 {
        let prev = qs.drop_last();
        assert forall|k: int| 0 < k < prev.len() implies #[trigger] goes_on(m, prev, k) by {
            assert(goes_on(m, qs, k));
        }
        assert forall|k: int| 0 <= k < prev.len() implies scanned(m, #[trigger] prev[k]) is Ok by {
            assert(scanned(m, qs[k]) is Ok);
        }
        lemma_walk(m, prev);
        assert(goes_on(m, qs, qs.len() - 1));
        let n = before.len() as int;
        lemma_row_at(rows, n - 1, 0);
        assert(page_start(rows, q.order_by, q.cursor) == Some(n));
    } else {
        assert(before =~= Seq::<RowV>::empty());
        assert(page_start(rows, q.order_by, q.cursor) == Some(0int));
    }
    let n = before.len() as int;
    assert(scanned(m, q)->Ok_0 == page_of(rows, n, at.name, q));
    assert(before + page =~= rows.take(n + page.len()));
}

/// The pages of a scan that is gone through to its end are, together, every row that meets the filters,
/// once and in order, whatever the sizes of the pages; no page is larger than asked for, and a cursor
/// comes with each page but the one after which no row is left.
pub proof fn law_pages_are_the_whole_scan(m: Model, qs: Seq<ScanV>)
    requires
        m.items.dom().finite(),
        walked(m, qs),
    ensures
        ({
            let at = m.typed_index_specs[typed_named(m.typed_index_specs, qs[0].index)->Ok_0];
            let rows = scan_rows(m, at.fields, qs[0])->Ok_0;
            &&& all_pages(m, qs).is_prefix_of(rows)
            &&& scanned(m, qs.last())->Ok_0.1 is None <==> all_pages(m, qs) == rows
            &&& scanned(m, qs.last())->Ok_0.0.len() <= qs.last().page_size
        }),
{
    let at = m.typed_index_specs[typed_named(m.typed_index_specs, qs[0].index)->Ok_0];
    let rows = scan_rows(m, at.fields, qs[0])->Ok_0;
    let seen = all_pages(m, qs);
    lemma_walk(m, qs);
    assert(rows.take(rows.len() as int) =~= rows);
    assert(scanned(m, qs[qs.len() - 1]) is Ok);
    lemma_page_fits(m, qs.last());
}

proof fn lemma_page_fits(m: Model, q: ScanV)
    requires
        scanned(m, q) is Ok,
    ensures
        scanned(m, q)->Ok_0.0.len() <= q.page_size,
{
    let at = m.typed_index_specs[typed_named(m.typed_index_specs, q.index)->Ok_0];
    let rows = scan_rows(m, at.fields, q)->Ok_0;
    lemma_start_bound(rows, q.order_by, q.cursor);
}

/// Pages follow one another: the cursor of one page leads to a page that starts with the row after its
/// last, of whatever size, while the queue stays as it is. Where a value is no number the cursor is not
/// taken back.
pub proof fn law_next_page_follows(m: Model, q: ScanV, next: ScanV)
    requires
        m.items.dom().finite(),
        scanned(m, q) is Ok,
        scanned(m, q)->Ok_0.1 is Some,
        next == (ScanV {
            cursor: CursorArgV::After(scanned(m, q)->Ok_0.1->Some_0),
            page_size: next.page_size,
            ..q
        }),
        0 < next.page_size <= MAX_PAGE_SIZE,
        same_filters(q.filters, q.filters),
        values_plain(scanned(m, q)->Ok_0.1->Some_0.anchor_values),
    ensures
        scanned(m, next) is Ok,
        ({
            let at = m.typed_index_specs[typed_named(m.typed_index_specs, q.index)->Ok_0];
            let rows = scan_rows(m, at.fields, q)->Ok_0;
            let start = page_start(rows, q.order_by, q.cursor)->Some_0;
            let page = scanned(m, q)->Ok_0.0;
            &&& scan_rows(m, at.fields, q) is Ok
            &&& page.len() == q.page_size
            &&& page == rows.subrange(start, start + page.len())
            &&& scanned(m, next)->Ok_0 == page_of(rows, start + page.len(), at.name, next)
        }),
{
    let at = m.typed_index_specs[typed_named(m.typed_index_specs, q.index)->Ok_0];
    let rows = scan_rows(m, at.fields, q)->Ok_0;
    law_scan_misses_no_row(m, q);
    let start = page_start(rows, q.order_by, q.cursor)->Some_0;
    let page = scanned(m, q)->Ok_0.0;
    lemma_start_bound(rows, q.order_by, q.cursor);
    let last = start + page.len() - 1;
    assert(rows[last] == page.last());
    lemma_row_at(rows, last, 0);
    let c = scanned(m, q)->Ok_0.1->Some_0;
    assert(same_value_lists(order_values(q.order_by, rows[last]), c.anchor_values));
}

pub proof fn lemma_start_bound(rows: Seq<RowV>, order: Seq<OrderV>, cursor: CursorArgV)
    requires
        page_start(rows, order, cursor) is Some,
    ensures
        0 <= page_start(rows, order, cursor)->Some_0 <= rows.len(),
{
    match cursor {
        CursorArgV::After(c) => {
            lemma_row_at_bound(rows, c.anchor_item_id, 0);
        },
        _ => {},
    }
}

proof fn lemma_row_at_bound(rows: Seq<RowV>, id: ItemId, from: int)
    requires
        0 <= from,
    ensures
        0 <= row_at(rows, id, from) <= rows.len() || from > rows.len(),
    decreases rows.len() - from,
{
    if from < rows.len() && rows[from].item_id != id {
        lemma_row_at_bound(rows, id, from + 1);
    }
}

} // verus!
