//! The rows of typed indexes.

use crate::order::{OrdMap, OrdSet, listing_of};
use crate::projection::copy_key;
use crate::relational::exec::{RelSession, RelTx, first, query_optional};
use crate::relational::lists::{flat, flatten_rows, lemma_stretch, params_v, rows_in, run_listed, run_rows, runs_in, stretch_end, valued, values_sql};
use crate::relational::query::{RELATIONAL_BATCH, own, own_params};
use crate::relational::script::{Script, chain, chunks, each, group_talk, held, lemma_start, reached};
use crate::relational::value::{CellV, Params, column};
use crate::sql::async_projection::DELETE_ITEM_INDEXES;
use crate::text::{clone_bytes, decimal, numeral, opt_text, same_text, texts};
use crate::types::{EngineError, EngineResult, ErrorV, IndexFields, ItemId, PushItem, QueueIndex, QueueIndexV, QueueKey, QueueV, UtcTimestamp, keys_view, outcome, typed_specs_v};
use vstd::prelude::*;
use vstd::string::*;

verus! {

broadcast use group_talk;

/// The most index rows that one conflict check names.
pub const TYPED_INDEX_CHECK_CHUNK: usize = 1000;

/// The most index rows that one statement inserts.
pub const TYPED_INDEX_INSERT_CHUNK: usize = 1500;

pub const SELECT_OTHER_HOLDER: &'static str = "SELECT item_id FROM fireweed_item_index \
                     WHERE tenant_id=?1 AND queue_id=?2 AND index_name=?3 AND index_key=?4 \
                     AND item_id!=?5 LIMIT 1";

pub const SELECT_HOLDER: &'static str = "SELECT item_id FROM fireweed_item_index \
                     WHERE tenant_id=?1 AND queue_id=?2 AND index_name=?3 AND index_key=?4 \
                     LIMIT 1";

pub const CHECK_CONFLICTS: &'static str = "WITH incoming(item_id,index_name,index_key) AS (VALUES ";

pub const CHECK_CONFLICTS_END: &'static str = ") \
                     SELECT 1 FROM fireweed_item_index existing JOIN incoming \
                       ON existing.index_name=incoming.index_name \
                      AND existing.index_key=incoming.index_key \
                      AND existing.item_id!=incoming.item_id \
                     WHERE existing.tenant_id=? AND existing.queue_id=? LIMIT 1";

pub const INSERT_INDEX_ROWS: &'static str = "INSERT INTO fireweed_item_index \
                 (tenant_id,queue_id,index_name,index_key,item_id) VALUES ";

/// A row that already stands is left as it is, so that a retry is safe.
pub const INSERT_INDEX_ROWS_END: &'static str = " ON CONFLICT DO NOTHING";

/// An item that a push or a replacement brings, with the sequence and the time of its command.
pub struct InsertItemSpec<'a> {
    pub item: &'a PushItem,
    pub command_seq: u64,
    pub now: UtcTimestamp,
}

/// A name and a key under it.
pub type NamedKey = (Seq<char>, Seq<u8>);

/// The keys that the typed indexes of a queue make of index values.
pub open spec fn native_keys(indexes: nat, f: IndexFields) -> Result<Seq<NamedKey>, ErrorV> {
    if indexes == 0 {
        Ok(Seq::empty())
    } else {
        match f.keys {
            Ok(k) => Ok(keys_view(k@)),
            Err(t) => Err(ErrorV::Storage(t@)),
        }
    }
}

pub open spec fn keys_outcome(r: EngineResult<Vec<(String, Vec<u8>)>>) -> Result<
    Seq<NamedKey>,
    ErrorV,
> {
    match r {
        Ok(k) => Ok(keys_view(k@)),
        Err(e) => Err(e@),
    }
}

pub fn copy_keys(keys: &Vec<(String, Vec<u8>)>) -> (r: Vec<(String, Vec<u8>)>)
    ensures
        keys_view(r@) == keys_view(keys@),
{
    let ghost all = keys_view(keys@);
    let mut out: Vec<(String, Vec<u8>)> = Vec::new();
    let mut i: usize = 0;
    assert(keys_view(out@) =~= all.take(0));
    while i < keys.len()
        invariant
            i <= keys@.len(),
            all == keys_view(keys@),
            keys_view(out@) == all.take(i as int),
        decreases keys@.len() - i,
    {
        let ghost before = out@;
        let k = copy_key(&keys[i]);
        out.push(k);
        assert(keys_view(out@) =~= keys_view(before).push((k.0@, k.1@)));
        assert(all.take(i as int + 1) =~= all.take(i as int).push(all[i as int]));
        i = i + 1;
    }
    assert(all.take(i as int) =~= all);
    out
}

/// The keys of index values: none where the queue has no typed index.
pub fn typed_index_keys_for_native(
    typed_indexes: &Vec<QueueIndex>,
    index_fields: &IndexFields,
) -> (r: EngineResult<Vec<(String, Vec<u8>)>>)
    ensures
        keys_outcome(r) == native_keys(typed_indexes@.len(), *index_fields),
{
    if typed_indexes.len() == 0 {
        let none: Vec<(String, Vec<u8>)> = Vec::new();
        assert(keys_view(none@) =~= Seq::<NamedKey>::empty());
        return Ok(none);
    }
    match &index_fields.keys {
        Ok(k) => Ok(copy_keys(k)),
        Err(t) => Err(EngineError::Storage(t.clone())),
    }
}

pub fn typed_index_keys_for_push_item(typed_indexes: &Vec<QueueIndex>, item: &PushItem) -> (r:
    EngineResult<Vec<(String, Vec<u8>)>>)
    ensures
        keys_outcome(r) == native_keys(typed_indexes@.len(), *item.index_fields),
{
    typed_index_keys_for_native(typed_indexes, &item.index_fields)
}

pub fn index_is_unique(index: &QueueIndex) -> (r: bool)
    ensures
        r == index@.unique,
{
    index.unique
}

/// The first index of the name admits one item a key.
pub open spec fn first_unique(specs: Seq<QueueIndexV>, name: Seq<char>) -> bool
    decreases specs.len(),
{
    if specs.len() == 0 {
        false
    } else if specs[0].name == name {
        specs[0].unique
    } else {
        first_unique(specs.drop_first(), name)
    }
}

/// Some index of the name admits one item a key.
pub open spec fn some_unique(specs: Seq<QueueIndexV>, name: Seq<char>) -> bool {
    exists|i: int| 0 <= i < specs.len() && (#[trigger] specs[i]).unique && specs[i].name == name
}

fn is_first_unique(indexes: &Vec<QueueIndex>, name: &str) -> (r: bool)
    ensures
        r == first_unique(typed_specs_v(indexes@), name@),
{
    let ghost all = typed_specs_v(indexes@);
    let mut i: usize = 0;
    assert(all.skip(0) =~= all);
    while i < indexes.len()
        invariant
            i <= indexes@.len(),
            all == typed_specs_v(indexes@),
            first_unique(all, name@) == first_unique(all.skip(i as int), name@),
        decreases indexes@.len() - i,
    {
        proof {
            assert(all.skip(i as int)[0] == indexes@[i as int]@);
            assert(all.skip(i as int).drop_first() =~= all.skip(i as int + 1));
        }
        if same_text(indexes[i].name.as_str(), name) {
            return index_is_unique(&indexes[i]);
        }
        i = i + 1;
    }
    false
}

fn is_some_unique(indexes: &Vec<QueueIndex>, name: &str) -> (r: bool)
    ensures
        r == some_unique(typed_specs_v(indexes@), name@),
{
    let ghost all = typed_specs_v(indexes@);
    let mut i: usize = 0;
    while i < indexes.len()
        invariant
            i <= indexes@.len(),
            all == typed_specs_v(indexes@),
            forall|j: int|
                0 <= j < i ==> !((#[trigger] all[j]).unique && all[j].name == name@),
        decreases indexes@.len() - i,
    {
        assert(all[i as int] == indexes@[i as int]@);
        if index_is_unique(&indexes[i]) && same_text(indexes[i].name.as_str(), name) {
            return true;
        }
        i = i + 1;
    }
    false
}

/// A key of a unique index is held by no other item.
pub open spec fn checks_key(
    q: QueueV,
    specs: Seq<QueueIndexV>,
    exclude: Option<Seq<char>>,
) -> spec_fn(NamedKey) -> Script<Result<(), ErrorV>> {
    |key: NamedKey|
        if !first_unique(specs, key.0) {
            Script::Done(Ok(()))
        } else {
            chain(
                match exclude {
                    Some(x) => first(
                        SELECT_OTHER_HOLDER@,
                        own(q).push(CellV::Text(key.0)).push(CellV::Blob(key.1)).push(
                            CellV::Text(x),
                        ),
                    ),
                    None => first(
                        SELECT_HOLDER@,
                        own(q).push(CellV::Text(key.0)).push(CellV::Blob(key.1)),
                    ),
                },
                |row: Option<Seq<CellV>>| Script::Done(unheld(row)),
            )
        }
}

/// A holder of the key is a conflict.
pub open spec fn unheld(row: Option<Seq<CellV>>) -> Result<(), ErrorV> {
    match row {
        None => Ok(()),
        Some(r) => match column::<String>(r, 0) {
            Err(e) => Err(e),
            Ok(_) => Err(ErrorV::Conflict),
        },
    }
}

fn check_key<T: RelTx>(
    tx: &mut RelSession<T>,
    shard: &QueueKey,
    typed_indexes: &Vec<QueueIndex>,
    key: &(String, Vec<u8>),
    exclude: &Option<String>,
) -> (r: EngineResult<()>)
    ensures
        held(
            old(tx).trace(),
            final(tx).trace(),
            checks_key(shard@, typed_specs_v(typed_indexes@), opt_text(*exclude))(
                (key.0@, key.1@),
            ),
            outcome(r),
        ),
{
    let ghost prog = checks_key(shard@, typed_specs_v(typed_indexes@), opt_text(*exclude))(
        (key.0@, key.1@),
    );
    proof {
        lemma_start(tx.trace(), prog);
    }
    if !is_first_unique(typed_indexes, key.0.as_str()) {
        return Ok(());
    }
    let params = own_params(shard).text(key.0.as_str()).blob(&key.1);
    let found = match exclude {
        Some(x) => query_optional(tx, SELECT_OTHER_HOLDER, params.text(x.as_str())),
        None => query_optional(tx, SELECT_HOLDER, params),
    };
    match found {
        Err(e) => Err(e),
        Ok(None) => Ok(()),
        Ok(Some(row)) => match row.get::<String>(0) {
            Err(e) => Err(e),
            Ok(_) => Err(EngineError::Conflict),
        },
    }
}

/// No key of a unique index is held by another item.
pub open spec fn checks_keys(
    q: QueueV,
    specs: Seq<QueueIndexV>,
    keys: Seq<NamedKey>,
    exclude: Option<Seq<char>>,
) -> Script<Result<(), ErrorV>> {
    each(keys, checks_key(q, specs, exclude))
}

/// Fails with a conflict where a unique index holds a key for another item.
pub fn check_typed_unique_conflicts<T: RelTx>(
    tx: &mut RelSession<T>,
    shard: &QueueKey,
    typed_indexes: &Vec<QueueIndex>,
    keys: &Vec<(String, Vec<u8>)>,
    exclude_item_id: &Option<String>,
) -> (r: EngineResult<()>)
    ensures
        held(
            old(tx).trace(),
            final(tx).trace(),
            checks_keys(
                shard@,
                typed_specs_v(typed_indexes@),
                keys_view(keys@),
                opt_text(*exclude_item_id),
            ),
            outcome(r),
        ),
{
    let ghost all = keys_view(keys@);
    let ghost f = checks_key(shard@, typed_specs_v(typed_indexes@), opt_text(*exclude_item_id));
    let ghost prog = each(all, f);
    let ghost start = tx.trace();
    let mut i: usize = 0;
    proof {
        lemma_start(start, prog);
        assert(all.skip(0) =~= all);
    }
    while i < keys.len()
        invariant
            i <= keys@.len(),
            all == keys_view(keys@),
            start == old(tx).trace(),
            f == checks_key(shard@, typed_specs_v(typed_indexes@), opt_text(*exclude_item_id)),
            prog == each(all, f),
            reached(start, tx.trace(), prog, each(all.skip(i as int), f)),
        decreases keys@.len() - i,
    {
        proof {
            assert(all.skip(i as int)[0] == (keys@[i as int].0@, keys@[i as int].1@));
            assert(all.skip(i as int).drop_first() =~= all.skip(i as int + 1));
        }
        match check_key(tx, shard, typed_indexes, &keys[i], exclude_item_id) {
            Err(e) => return Err(e),
            Ok(_) => {},
        }
        i = i + 1;
    }
    assert(all.skip(i as int) =~= Seq::<NamedKey>::empty());
    Ok(())
}

/// One index row: the item, the index and the key.
pub struct IndexRow {
    pub item_id: String,
    pub name: String,
    pub key: Vec<u8>,
}

pub ghost struct IndexRowV {
    pub item_id: Seq<char>,
    pub name: Seq<char>,
    pub key: Seq<u8>,
}

impl IndexRow {
    pub open spec fn view(&self) -> IndexRowV {
        IndexRowV { item_id: self.item_id@, name: self.name@, key: self.key@ }
    }

    fn duplicate(&self) -> (r: IndexRow)
        ensures
            r@ == self@,
    {
        IndexRow {
            item_id: self.item_id.clone(),
            name: self.name.clone(),
            key: clone_bytes(&self.key),
        }
    }
}

pub open spec fn index_rows_v(rows: Seq<IndexRow>) -> Seq<IndexRowV> {
    rows.map_values(|r: IndexRow| r@)
}

/// The rows of one item, one for each key.
pub open spec fn rows_of_keys(item_id: Seq<char>, keys: Seq<NamedKey>) -> Seq<IndexRowV> {
    keys.map_values(|k: NamedKey| IndexRowV { item_id, name: k.0, key: k.1 })
}

fn push_rows(out: &mut Vec<IndexRow>, item_id: &str, keys: &Vec<(String, Vec<u8>)>)
    ensures
        index_rows_v(final(out)@) == index_rows_v(old(out)@) + rows_of_keys(
            item_id@,
            keys_view(keys@),
        ),
{
    let ghost start = index_rows_v(out@);
    let ghost all = rows_of_keys(item_id@, keys_view(keys@));
    let mut i: usize = 0;
    assert(index_rows_v(out@) =~= start + all.take(0));
    while i < keys.len()
        invariant
            i <= keys@.len(),
            all == rows_of_keys(item_id@, keys_view(keys@)),
            index_rows_v(out@) == start + all.take(i as int),
        decreases keys@.len() - i,
    {
        let ghost before = out@;
        let row = IndexRow {
            item_id: item_id.to_owned(),
            name: keys[i].0.clone(),
            key: clone_bytes(&keys[i].1),
        };
        out.push(row);
        proof {
            assert(index_rows_v(out@) =~= index_rows_v(before).push(row@));
            assert(row@ == all[i as int]);
            assert(index_rows_v(out@) =~= start + all.take(i as int + 1));
        }
        i = i + 1;
    }
    assert(all.take(i as int) =~= all);
}

/// The rows of unique indexes.
pub open spec fn unique_rows(rows: Seq<IndexRowV>, specs: Seq<QueueIndexV>) -> Seq<IndexRowV>
    decreases rows.len(),
{
    if rows.len() == 0 {
        Seq::empty()
    } else if some_unique(specs, rows.last().name) {
        unique_rows(rows.drop_last(), specs).push(rows.last())
    } else {
        unique_rows(rows.drop_last(), specs)
    }
}

pub open spec fn incoming_cells(r: IndexRowV) -> Seq<CellV> {
    Seq::<CellV>::empty().push(CellV::Text(r.item_id)).push(CellV::Text(r.name)).push(
        CellV::Blob(r.key),
    )
}

pub open spec fn incoming_rows(rows: Seq<IndexRowV>) -> Seq<Seq<CellV>> {
    rows.map_values(|r: IndexRowV| incoming_cells(r))
}

/// One conflict check over a stretch of rows.
pub open spec fn checks_stretch(q: QueueV) -> spec_fn(Seq<Seq<CellV>>) -> Script<
    Result<(), ErrorV>,
> {
    |chunk: Seq<Seq<CellV>>|
        chain(
            first(
                valued(CHECK_CONFLICTS@, "(?,?,?)"@, chunk.len(), CHECK_CONFLICTS_END@),
                flat(chunk) + own(q),
            ),
            |row: Option<Seq<CellV>>|
                Script::Done(
                    match row {
                        None => Ok(()),
                        Some(r) => match column::<i64>(r, 0) {
                            Err(e) => Err(e),
                            Ok(_) => Err::<(), ErrorV>(ErrorV::Conflict),
                        },
                    },
                ),
        )
}

/// No row of a unique index stands against a stored one.
pub open spec fn checks_rows(q: QueueV, specs: Seq<QueueIndexV>, rows: Seq<IndexRowV>) -> Script<
    Result<(), ErrorV>,
> {
    each(
        chunks(incoming_rows(unique_rows(rows, specs)), TYPED_INDEX_CHECK_CHUNK as nat),
        checks_stretch(q),
    )
}

fn incoming_params(rows: &Vec<IndexRow>, typed_indexes: &Vec<QueueIndex>) -> (r: Vec<Params>)
    ensures
        params_v(r@) == incoming_rows(
            unique_rows(index_rows_v(rows@), typed_specs_v(typed_indexes@)),
        ),
{
    let ghost all = index_rows_v(rows@);
    let ghost specs = typed_specs_v(typed_indexes@);
    let mut out: Vec<Params> = Vec::new();
    let mut i: usize = 0;
    assert(all.take(0) =~= Seq::<IndexRowV>::empty());
    assert(params_v(out@) =~= incoming_rows(unique_rows(all.take(0), specs)));
    while i < rows.len()
        invariant
            i <= rows@.len(),
            all == index_rows_v(rows@),
            specs == typed_specs_v(typed_indexes@),
            params_v(out@) == incoming_rows(unique_rows(all.take(i as int), specs)),
        decreases rows@.len() - i,
    {
        proof {
            assert(all.take(i as int + 1).drop_last() =~= all.take(i as int));
            assert(all.take(i as int + 1).last() == rows@[i as int]@);
        }
        if is_some_unique(typed_indexes, rows[i].name.as_str()) {
            let ghost before = out@;
            let p = Params::new().text(rows[i].item_id.as_str()).text(rows[i].name.as_str()).blob(
                &rows[i].key,
            );
            out.push(p);
            assert(params_v(out@) =~= params_v(before).push(p@));
            assert(incoming_rows(unique_rows(all.take(i as int + 1), specs)) =~= incoming_rows(
                unique_rows(all.take(i as int), specs),
            ).push(incoming_cells(rows@[i as int]@)));
        }
        i = i + 1;
    }
    assert(all.take(i as int) =~= all);
    out
}

fn check_typed_unique_conflicts_batch<T: RelTx>(
    tx: &mut RelSession<T>,
    shard: &QueueKey,
    typed_indexes: &Vec<QueueIndex>,
    rows: &Vec<IndexRow>,
) -> (r: EngineResult<()>)
    ensures
        held(
            old(tx).trace(),
            final(tx).trace(),
            checks_rows(shard@, typed_specs_v(typed_indexes@), index_rows_v(rows@)),
            outcome(r),
        ),
{
    let params = incoming_params(rows, typed_indexes);
    let ghost all = params_v(params@);
    let ghost f = checks_stretch(shard@);
    let ghost prog = each(chunks(all, TYPED_INDEX_CHECK_CHUNK as nat), f);
    let ghost start = tx.trace();
    let n = params.len();
    let mut i: usize = 0;
    proof {
        lemma_start(start, prog);
        assert(all.skip(0) =~= all);
    }
    while i < n
        invariant
            i <= n,
            n == all.len(),
            n == params@.len(),
            all == params_v(params@),
            start == old(tx).trace(),
            f == checks_stretch(shard@),
            prog == each(chunks(all, TYPED_INDEX_CHECK_CHUNK as nat), f),
            prog == checks_rows(shard@, typed_specs_v(typed_indexes@), index_rows_v(rows@)),
            reached(
                start,
                tx.trace(),
                prog,
                each(chunks(all.skip(i as int), TYPED_INDEX_CHECK_CHUNK as nat), f),
            ),
        decreases n - i,
    {
        let end = stretch_end(i, n, TYPED_INDEX_CHECK_CHUNK);
        proof {
            lemma_stretch(all, i as int, end as int, TYPED_INDEX_CHECK_CHUNK as nat);
        }
        match check_stretch(tx, shard, &params, i, end) {
            Err(e) => return Err(e),
            Ok(_) => {},
        }
        i = end;
    }
    assert(all.skip(i as int) =~= Seq::<Seq<CellV>>::empty());
    Ok(())
}

fn check_stretch<T: RelTx>(
    tx: &mut RelSession<T>,
    shard: &QueueKey,
    params: &Vec<Params>,
    from: usize,
    to: usize,
) -> (r: EngineResult<()>)
    requires
        from <= to <= params@.len(),
    ensures
        held(
            old(tx).trace(),
            final(tx).trace(),
            checks_stretch(shard@)(params_v(params@).subrange(from as int, to as int)),
            outcome(r),
        ),
{
    let ghost chunk = params_v(params@).subrange(from as int, to as int);
    proof {
        lemma_start(tx.trace(), checks_stretch(shard@)(chunk));
        assert(chunk.len() == to - from);
    }
    let sql = values_sql(CHECK_CONFLICTS, "(?,?,?)", to - from, CHECK_CONFLICTS_END);
    match query_optional(
        tx,
        sql.as_str(),
        flatten_rows(params, from, to).joined(&own_params(shard)),
    ) {
        Err(e) => Err(e),
        Ok(None) => Ok(()),
        Ok(Some(row)) => match row.get::<i64>(0) {
            Err(e) => Err(e),
            Ok(_) => Err(EngineError::Conflict),
        },
    }
}

/// Where a row goes: by index, then by key, then as it came.
pub open spec fn row_places(rows: Seq<IndexRowV>) -> Set<((Seq<char>, Seq<u8>), u64)> {
    Set::new(
        |p: ((Seq<char>, Seq<u8>), u64)|
            p.1 < rows.len() && p.0 == (rows[p.1 as int].name, rows[p.1 as int].key),
    )
}

/// Rows in the order of their index and key.
pub open spec fn rows_by_key(rows: Seq<IndexRowV>) -> Seq<IndexRowV> {
    listing_of::<((String, Vec<u8>), u64)>(row_places(rows)).map_values(
        |p: ((Seq<char>, Seq<u8>), u64)| rows[p.1 as int],
    )
}

pub open spec fn stored_cells(q: QueueV) -> spec_fn(IndexRowV) -> Seq<CellV> {
    |r: IndexRowV|
        own(q).push(CellV::Text(r.name)).push(CellV::Blob(r.key)).push(CellV::Text(r.item_id))
}

/// Index rows are inserted in the order of their index and key; one that already stands is kept.
pub open spec fn inserts_rows(q: QueueV, rows: Seq<IndexRowV>) -> Script<Result<(), ErrorV>> {
    rows_in(
        INSERT_INDEX_ROWS@,
        "(?,?,?,?,?)"@,
        INSERT_INDEX_ROWS_END@,
        rows_by_key(rows).map_values(stored_cells(q)),
        Seq::empty(),
        TYPED_INDEX_INSERT_CHUNK as nat,
    )
}

fn place_rows(rows: &Vec<IndexRow>) -> (r: OrdSet<((String, Vec<u8>), u64)>)
    ensures
        r@ == row_places(index_rows_v(rows@)),
{
    let ghost all = index_rows_v(rows@);
    let mut out: OrdSet<((String, Vec<u8>), u64)> = OrdSet::new();
    let n = rows.len();
    let mut i: usize = 0;
    assert(out@ =~= row_places(all.take(0)));
    while i < n
        invariant
            i <= n,
            n == rows@.len(),
            all == index_rows_v(rows@),
            out@ == row_places(all.take(i as int)),
        decreases rows@.len() - i,
    {
        let ghost before = out@;
        let key = (rows[i].name.clone(), clone_bytes(&rows[i].key));
        out.insert((key, i as u64));
        proof {
            let row = rows@[i as int]@;
            assert(all[i as int] == row);
            assert(out@ == before.insert(((row.name, row.key), i as u64)));
            assert(out@ =~= row_places(all.take(i as int + 1))) by {
                assert forall|p: ((Seq<char>, Seq<u8>), u64)|
                    out@.contains(p) <==> row_places(all.take(i as int + 1)).contains(p) by {
                    if p.1 < i {
                        assert(all.take(i as int)[p.1 as int] == all.take(i as int + 1)[p.1 as int]);
                    }
                }
            }
        }
        i = i + 1;
    }
    assert(all.take(i as int) =~= all);
    out
}

fn insert_typed_index_rows_batch<T: RelTx>(
    tx: &mut RelSession<T>,
    shard: &QueueKey,
    rows: &Vec<IndexRow>,
) -> (r: EngineResult<()>)
    ensures
        held(
            old(tx).trace(),
            final(tx).trace(),
            inserts_rows(shard@, index_rows_v(rows@)),
            outcome(r),
        ),
{
    let ghost all = index_rows_v(rows@);
    let places = place_rows(rows);
    let ghost order = listing_of::<((String, Vec<u8>), u64)>(row_places(all));
    let ghost cells = rows_by_key(all).map_values(stored_cells(shard@));
    let n = places.len();
    let total = rows.len();
    let mut params: Vec<Params> = Vec::new();
    let mut i: usize = 0;
    assert(params_v(params@) =~= cells.take(0));
    while i < n
        invariant
            i <= n,
            n == order.len(),
            total == rows@.len(),
            order == places.listing(),
            order == listing_of::<((String, Vec<u8>), u64)>(row_places(all)),
            places@ == row_places(all),
            all == index_rows_v(rows@),
            cells == rows_by_key(all).map_values(stored_cells(shard@)),
            params_v(params@) == cells.take(i as int),
        decreases n - i,
    {
        let at = places.at(i).1;
        proof {
            assert(places@.contains(order[i as int]));
            assert(at == order[i as int].1);
            assert(at < total);
        }
        let row = &rows[at as usize];
        let ghost before = params@;
        let p = own_params(shard).text(row.name.as_str()).blob(&row.key).text(row.item_id.as_str());
        params.push(p);
        proof {
            assert(all[at as int] == rows@[at as int]@);
            assert(rows_by_key(all)[i as int] == all[at as int]);
            assert(cells[i as int] == stored_cells(shard@)(all[at as int]));
            assert(cells[i as int] == p@);
            assert(params_v(params@) =~= params_v(before).push(p@));
            assert(cells.take(i as int + 1) =~= cells.take(i as int).push(cells[i as int]));
        }
        i = i + 1;
    }
    assert(cells.take(i as int) =~= cells);
    run_rows(
        tx,
        INSERT_INDEX_ROWS,
        "(?,?,?,?,?)",
        INSERT_INDEX_ROWS_END,
        &params,
        &Params::new(),
        TYPED_INDEX_INSERT_CHUNK,
    )
}

/// Inserts the index rows of one item. Rows that already stand are kept, so that a retry is safe.
pub fn insert_typed_index_rows<T: RelTx>(
    tx: &mut RelSession<T>,
    shard: &QueueKey,
    item_id: &str,
    keys: &Vec<(String, Vec<u8>)>,
) -> (r: EngineResult<()>)
    ensures
        held(
            old(tx).trace(),
            final(tx).trace(),
            inserts_rows(shard@, rows_of_keys(item_id@, keys_view(keys@))),
            outcome(r),
        ),
{
    let mut rows: Vec<IndexRow> = Vec::new();
    assert(index_rows_v(rows@) =~= Seq::<IndexRowV>::empty());
    push_rows(&mut rows, item_id, keys);
    assert(index_rows_v(rows@) =~= rows_of_keys(item_id@, keys_view(keys@)));
    insert_typed_index_rows_batch(tx, shard, &rows)
}

/// The index rows of items go.
pub open spec fn drops_index_rows(q: QueueV, ids: Seq<Seq<char>>) -> Script<Result<(), ErrorV>> {
    runs_in(DELETE_ITEM_INDEXES@, own(q), ids, RELATIONAL_BATCH as nat)
}

/// Deletes the index rows of the named items.
pub fn delete_typed_index_rows<T: RelTx>(
    tx: &mut RelSession<T>,
    shard: &QueueKey,
    item_ids: &Vec<String>,
) -> (r: EngineResult<()>)
    ensures
        held(
            old(tx).trace(),
            final(tx).trace(),
            drops_index_rows(shard@, texts(item_ids@)),
            outcome(r),
        ),
{
    run_listed(tx, DELETE_ITEM_INDEXES, &own_params(shard), item_ids, RELATIONAL_BATCH)
}

/// The keys of unique indexes that a batch has used, and by which item.
pub type UsedKeys = Map<NamedKey, ItemId>;

/// The keys of one item are used, unless another item of the batch has one of them.
pub open spec fn keys_used(
    used: UsedKeys,
    keys: Seq<NamedKey>,
    id: ItemId,
    specs: Seq<QueueIndexV>,
) -> Result<UsedKeys, ErrorV>
    decreases keys.len(),
{
    if keys.len() == 0 {
        Ok(used)
    } else {
        match keys_used(used, keys.drop_last(), id, specs) {
            Err(e) => Err(e),
            Ok(u) => {
                let k = keys.last();
                if !some_unique(specs, k.0) {
                    Ok(u)
                } else if u.contains_key(k) {
                    if u[k] == id {
                        Ok(u)
                    } else {
                        Err(ErrorV::Conflict)
                    }
                } else {
                    Ok(u.insert(k, id))
                }
            },
        }
    }
}

/// The index rows of a batch, with the keys that it uses.
pub open spec fn batch_rows(items: Seq<InsertItemSpec>, specs: Seq<QueueIndexV>) -> Result<
    (Seq<IndexRowV>, UsedKeys),
    ErrorV,
>
    decreases items.len(),
{
    if items.len() == 0 {
        Ok((Seq::empty(), Map::empty()))
    } else {
        match batch_rows(items.drop_last(), specs) {
            Err(e) => Err(e),
            Ok(done) => {
                let item = *items.last().item;
                match native_keys(specs.len(), *item.index_fields) {
                    Err(e) => Err(e),
                    Ok(keys) => match keys_used(done.1, keys, item.item_id, specs) {
                        Err(e) => Err(e),
                        Ok(used) => Ok(
                            (done.0 + rows_of_keys(numeral(item.item_id as nat), keys), used),
                        ),
                    },
                }
            },
        }
    }
}

proof fn lemma_batch_stops(items: Seq<InsertItemSpec>, specs: Seq<QueueIndexV>, n: int, e: ErrorV)
    requires
        0 <= n <= items.len(),
        batch_rows(items.take(n), specs) == Err::<(Seq<IndexRowV>, UsedKeys), ErrorV>(e),
    ensures
        batch_rows(items, specs) == Err::<(Seq<IndexRowV>, UsedKeys), ErrorV>(e),
    decreases items.len() - n,
{
    if n == items.len() {
        assert(items.take(n) =~= items);
    } else {
        assert(items.take(n + 1).drop_last() =~= items.take(n));
        lemma_batch_stops(items, specs, n + 1, e);
    }
}

proof fn lemma_used_stops(
    used: UsedKeys,
    keys: Seq<NamedKey>,
    id: ItemId,
    specs: Seq<QueueIndexV>,
    n: int,
    e: ErrorV,
)
    requires
        0 <= n <= keys.len(),
        keys_used(used, keys.take(n), id, specs) == Err::<UsedKeys, ErrorV>(e),
    ensures
        keys_used(used, keys, id, specs) == Err::<UsedKeys, ErrorV>(e),
    decreases keys.len() - n,
{
    if n == keys.len() {
        assert(keys.take(n) =~= keys);
    } else {
        assert(keys.take(n + 1).drop_last() =~= keys.take(n));
        lemma_used_stops(used, keys, id, specs, n + 1, e);
    }
}

fn use_keys(
    used: &mut OrdMap<(String, Vec<u8>), u64>,
    keys: &Vec<(String, Vec<u8>)>,
    id: ItemId,
    typed_indexes: &Vec<QueueIndex>,
) -> (r: EngineResult<()>)
    ensures
        match r {
            Ok(_) => keys_used(
                old(used)@,
                keys_view(keys@),
                id,
                typed_specs_v(typed_indexes@),
            ) == Ok::<UsedKeys, ErrorV>(final(used)@),
            Err(e) => keys_used(
                old(used)@,
                keys_view(keys@),
                id,
                typed_specs_v(typed_indexes@),
            ) == Err::<UsedKeys, ErrorV>(e@),
        },
{
    let ghost start = used@;
    let ghost all = keys_view(keys@);
    let ghost specs = typed_specs_v(typed_indexes@);
    let mut i: usize = 0;
    assert(all.take(0) =~= Seq::<NamedKey>::empty());
    while i < keys.len()
        invariant
            i <= keys@.len(),
            all == keys_view(keys@),
            specs == typed_specs_v(typed_indexes@),
            start == old(used)@,
            keys_used(start, all.take(i as int), id, specs) == Ok::<UsedKeys, ErrorV>(used@),
        decreases keys@.len() - i,
    {
        proof {
            assert(all.take(i as int + 1).drop_last() =~= all.take(i as int));
            assert(all.take(i as int + 1).last() == (keys@[i as int].0@, keys@[i as int].1@));
        }
        if is_some_unique(typed_indexes, keys[i].0.as_str()) {
            let key = copy_key(&keys[i]);
            match used.get(&key) {
                Some(other) => {
                    if *other != id {
                        proof {
                            lemma_used_stops(start, all, id, specs, i as int + 1, ErrorV::Conflict);
                        }
                        return Err(EngineError::Conflict);
                    }
                },
                None => {
                    used.insert(key, id);
                },
            }
        }
        i = i + 1;
    }
    assert(all.take(i as int) =~= all);
    Ok(())
}

fn gather_rows(items: &Vec<InsertItemSpec>, typed_indexes: &Vec<QueueIndex>) -> (r: EngineResult<
    Vec<IndexRow>,
>)
    ensures
        match r {
            Ok(rows) => {
                &&& batch_rows(items@, typed_specs_v(typed_indexes@)) is Ok
                &&& batch_rows(items@, typed_specs_v(typed_indexes@))->Ok_0.0 == index_rows_v(rows@)
            },
            Err(e) => batch_rows(items@, typed_specs_v(typed_indexes@)) == Err::<
                (Seq<IndexRowV>, UsedKeys),
                ErrorV,
            >(e@),
        },
{
    let ghost specs = typed_specs_v(typed_indexes@);
    let mut out: Vec<IndexRow> = Vec::new();
    let mut used: OrdMap<(String, Vec<u8>), u64> = OrdMap::new();
    let mut i: usize = 0;
    assert(items@.take(0) =~= Seq::<InsertItemSpec>::empty());
    assert(index_rows_v(out@) =~= Seq::<IndexRowV>::empty());
    assert(used@ =~= Map::<NamedKey, ItemId>::empty());
    while i < items.len()
        invariant
            i <= items@.len(),
            specs == typed_specs_v(typed_indexes@),
            specs.len() == typed_indexes@.len(),
            batch_rows(items@.take(i as int), specs) == Ok::<
                (Seq<IndexRowV>, UsedKeys),
                ErrorV,
            >((index_rows_v(out@), used@)),
        decreases items@.len() - i,
    {
        proof {
            assert(items@.take(i as int + 1).drop_last() =~= items@.take(i as int));
            assert(items@.take(i as int + 1).last() == items@[i as int]);
        }
        let item = items[i].item;
        let keys = match typed_index_keys_for_push_item(typed_indexes, item) {
            Err(e) => {
                proof {
                    lemma_batch_stops(items@, specs, i as int + 1, e@);
                }
                return Err(e);
            },
            Ok(k) => k,
        };
        match use_keys(&mut used, &keys, item.item_id, typed_indexes) {
            Err(e) => {
                proof {
                    lemma_batch_stops(items@, specs, i as int + 1, e@);
                }
                return Err(e);
            },
            Ok(_) => {},
        }
        push_rows(&mut out, decimal(item.item_id).as_str(), &keys);
        i = i + 1;
    }
    assert(items@.take(i as int) =~= items@);
    Ok(out)
}

/// The index rows of a batch are checked, among themselves and against the stored ones, and
/// inserted.
pub open spec fn maintains(q: QueueV, specs: Seq<QueueIndexV>, items: Seq<InsertItemSpec>) -> Script<
    Result<(), ErrorV>,
> {
    if specs.len() == 0 {
        Script::Done(Ok(()))
    } else {
        match batch_rows(items, specs) {
            Err(e) => Script::Done(Err(e)),
            Ok(b) => chain(checks_rows(q, specs, b.0), |u: ()| inserts_rows(q, b.0)),
        }
    }
}

/// Checks and inserts the index rows of a batch of new items.
pub fn maintain_typed_indexes_on_insert<T: RelTx>(
    tx: &mut RelSession<T>,
    shard: &QueueKey,
    typed_indexes: &Vec<QueueIndex>,
    items: &Vec<InsertItemSpec>,
) -> (r: EngineResult<()>)
    ensures
        held(
            old(tx).trace(),
            final(tx).trace(),
            maintains(shard@, typed_specs_v(typed_indexes@), items@),
            outcome(r),
        ),
{
    proof {
        lemma_start(tx.trace(), maintains(shard@, typed_specs_v(typed_indexes@), items@));
    }
    if typed_indexes.len() == 0 {
        return Ok(());
    }
    let rows = match gather_rows(items, typed_indexes) {
        Err(e) => return Err(e),
        Ok(rows) => rows,
    };
    match check_typed_unique_conflicts_batch(tx, shard, typed_indexes, &rows) {
        Err(e) => return Err(e),
        Ok(_) => {},
    }
    insert_typed_index_rows_batch(tx, shard, &rows)
}

} // verus!
