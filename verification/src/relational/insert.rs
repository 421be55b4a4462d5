//! New items as rows.

use crate::json::JsonV;
use crate::relational::codec::{buffer_bytes, elig_sort, fields_text, fields_to_json, nanos, opt_nanos, sort_column, ts_nanos, ts_nanos_opt, wrap_sum, wrapped_sum};
use crate::relational::cohorts::{Queues, records_cohorts, upsert_cohorts};
use crate::relational::exec::{RelCodec, RelSession, RelTx, one, query_row, rel_done};
use crate::relational::indexes::{InsertItemSpec, maintain_typed_indexes_on_insert, maintains};
use crate::relational::lists::{flat, flatten_rows, lemma_stretch, params_v, rows_in, run_rows, stretch_end, valued, values_sql};
use crate::relational::query::{RELATIONAL_BATCH, no_metadata, own, own_params};
use crate::relational::script::{Script, all_of, chain, chunks, done, each, fold, group_talk, held, lemma_all_of_step, lemma_all_of_stops, lemma_start, reached, write_document, write_metadata, write_priority};
use crate::relational::summary::{GroupItemRef, RefV, refs_v};
use crate::relational::value::{CellV, Params, blob_cell, bytes_opt, column, int_cell, text_cell};
use crate::sql::async_projection::{INSERT_ID_HIGH_WATER, SELECT_NEXT_ITEM_SEQUENCE, UPDATE_NEXT_ITEM_SEQUENCE};
use crate::text::{clone_bytes, decimal, numeral, opt_text, same_text, texts};
use crate::types::{EngineError, EngineResult, Entity, EntityV, ErrorV, FieldMap, IndexFields, ItemId, PriorityModel, PriorityV, PriorityValue, PushItem, QueueDefinition, QueueIndex, QueueIndexV, QueueKey, QueueV, UtcTimestamp, field_bytes, metadata_of, opt_bytes, opt_doc, opt_priority, outcome, typed_specs_v};
use vstd::prelude::*;
use vstd::string::*;

verus! {

broadcast use group_talk;

pub const INSERT_ITEMS: &'static str = "INSERT INTO fireweed_items \
             (tenant_id,queue_id,item_id,client_item_key,lifecycle_state,priority,priority_sort,\
              not_before,eligible_since,group_key,cohort_size,payload,fields,metadata,entity_document,index_fields,retry_count,\
              item_version,lease_token_hash,lease_expires_at,worker_id,last_command_sequence,created_at,\
              updated_at,terminal_at,terminal_command_epoch,fenced,superseded,max_attempts,created_seq) VALUES ";

pub const ITEM_ROW: &'static str =
    "(?,?,?,?,'Pending',?,?,?,?,?,?,?,?,?,?,?,0,1,NULL,NULL,NULL,?,?,?,NULL,NULL,0,0,?,?)";

pub const INSERT_EMPTY_ITEMS: &'static str = "INSERT INTO fireweed_items \
             (tenant_id,queue_id,item_id,client_item_key,lifecycle_state,priority,priority_sort,\
              not_before,eligible_since,group_key,cohort_size,payload,fields,metadata,entity_document,retry_count,\
             item_version,lease_token_hash,lease_expires_at,worker_id,last_command_sequence,created_at,\
              updated_at,terminal_at,terminal_command_epoch,fenced,superseded,max_attempts,created_seq) VALUES ";

pub const EMPTY_ITEM_ROW: &'static str = "(?,?,?,?,'Pending',NULL,X'01',NULL,?,NULL,NULL,NULL,'{}','{}',NULL,0,1,NULL,NULL,NULL,?,?,?,NULL,NULL,0,0,?,?)";

pub const INSERT_PAYLOAD_ITEMS: &'static str = "INSERT INTO fireweed_items \
             (tenant_id,queue_id,item_id,client_item_key,lifecycle_state,priority,priority_sort,\
              not_before,eligible_since,group_key,cohort_size,payload,fields,metadata,entity_document,index_fields,retry_count,\
             item_version,lease_token_hash,lease_expires_at,worker_id,last_command_sequence,created_at,\
              updated_at,terminal_at,terminal_command_epoch,fenced,superseded,max_attempts,created_seq) VALUES ";

pub const PAYLOAD_ITEM_ROW: &'static str = "(?,?,?,?,'Pending',NULL,X'01',NULL,?,NULL,NULL,?, '{}','{}',NULL,?,0,1,NULL,NULL,NULL,?,?,?,NULL,NULL,0,0,?,?)";

pub const INSERT_GATES: &'static str = "INSERT INTO fireweed_item_gates (tenant_id,queue_id,item_id,gate_key) VALUES ";

pub const INSERT_GATES_END: &'static str = " \
             ON CONFLICT(tenant_id,queue_id,item_id,gate_key) DO NOTHING";

/// The greatest of some items.
pub open spec fn greatest(ids: Seq<ItemId>) -> Option<ItemId>
    decreases ids.len(),
{
    if ids.len() == 0 {
        None
    } else {
        match greatest(ids.drop_last()) {
            Some(m) if m > ids.last() => Some(m),
            _ => Some(ids.last()),
        }
    }
}

fn greatest_id(ids: &Vec<ItemId>) -> (r: Option<ItemId>)
    ensures
        r == greatest(ids@),
{
    let mut best: Option<ItemId> = None;
    let mut i: usize = 0;
    assert(ids@.take(0) =~= Seq::<ItemId>::empty());
    while i < ids.len()
        invariant
            i <= ids@.len(),
            best == greatest(ids@.take(i as int)),
        decreases ids@.len() - i,
    {
        proof {
            assert(ids@.take(i as int + 1).drop_last() =~= ids@.take(i as int));
            assert(ids@.take(i as int + 1).last() == ids@[i as int]);
        }
        best = match best {
            Some(m) if m > ids[i] => Some(m),
            _ => Some(ids[i]),
        };
        i = i + 1;
    }
    assert(ids@.take(i as int) =~= ids@);
    best
}

/// The mark of the greatest minted item moves up to these, never down.
pub open spec fn marks_ids(q: QueueV, ids: Seq<ItemId>) -> Script<Result<(), ErrorV>> {
    match greatest(ids) {
        None => Script::Done(Ok(())),
        Some(m) => done(INSERT_ID_HIGH_WATER@, own(q).push(CellV::Text(numeral(m as nat)))),
    }
}

/// Of two texts of one length, the first comes before the second: by the first character that tells
/// them apart.
pub open spec fn comes_before(a: Seq<char>, b: Seq<char>) -> bool {
    exists|p: int| #[trigger] tells_apart(a, b, p)
}

pub open spec fn tells_apart(a: Seq<char>, b: Seq<char>, p: int) -> bool {
    0 <= p < a.len() && p < b.len() && a.take(p) == b.take(p) && a[p] < b[p]
}

/// By length and then by text, as the store compares them, numerals stand in the order of their
/// numbers: the mark moves only to a greater item.
pub proof fn law_marks_compare_as_numbers(a: nat, b: nat)
    requires
        a < b,
    ensures
        numeral(a).len() < numeral(b).len() || (numeral(a).len() == numeral(b).len() && comes_before(
            numeral(a),
            numeral(b),
        )),
    decreases b,
{
    let s = numeral(a);
    let t = numeral(b);
    if b < 10 {
        assert(s.take(0) =~= t.take(0));
        assert(tells_apart(s, t, 0));
    } else if a < 10 {
        assert(numeral(b / 10).len() > 0);
    } else if a / 10 == b / 10 {
        let p = s.len() - 1;
        assert(s.take(p) =~= numeral(a / 10));
        assert(t.take(p) =~= numeral(b / 10));
        assert(tells_apart(s, t, p));
    } else {
        law_marks_compare_as_numbers(a / 10, b / 10);
        if s.len() == t.len() {
            let p = choose|p: int| #[trigger] tells_apart(numeral(a / 10), numeral(b / 10), p);
            assert(s.take(p) =~= numeral(a / 10).take(p));
            assert(t.take(p) =~= numeral(b / 10).take(p));
            assert(tells_apart(s, t, p));
        }
    }
}

/// The mark is set by the greatest of the items that go.
pub proof fn law_greatest_is_greatest(ids: Seq<ItemId>)
    ensures
        greatest(ids) is Some <==> ids.len() > 0,
        ids.len() > 0 ==> ids.contains(greatest(ids)->Some_0),
        forall|k: int| 0 <= k < ids.len() ==> #[trigger] ids[k] <= greatest(ids)->Some_0,
    decreases ids.len(),
{
    if ids.len() > 0 {
        let l = ids.drop_last();
        law_greatest_is_greatest(l);
        if greatest(ids) == Some(ids.last()) {
            assert(ids[ids.len() - 1] == ids.last());
        } else {
            let k = choose|k: int| 0 <= k < l.len() && l[k] == greatest(l)->Some_0;
            assert(ids[k] == l[k]);
        }
        assert forall|k: int| 0 <= k < ids.len() implies #[trigger] ids[k] <= greatest(ids)->Some_0 by {
            if k < l.len() {
                assert(ids[k] == l[k]);
            }
        }
    }
}

pub fn advance_id_high_water_sql<T: RelTx>(
    tx: &mut RelSession<T>,
    shard: &QueueKey,
    reaped: &Vec<ItemId>,
) -> (r: EngineResult<()>)
    ensures
        held(old(tx).trace(), final(tx).trace(), marks_ids(shard@, reaped@), outcome(r)),
{
    proof {
        lemma_start(tx.trace(), marks_ids(shard@, reaped@));
    }
    match greatest_id(reaped) {
        None => Ok(()),
        Some(m) => rel_done(
            tx,
            INSERT_ID_HIGH_WATER,
            own_params(shard).text(decimal(m).as_str()),
        ),
    }
}

/// The item has at most a payload and index values, under its own numeral.
pub open spec fn payload_only(i: PushItem) -> bool {
    &&& i.client_item_key@ == numeral(i.item_id as nat)
    &&& i.priority is None
    &&& i.not_before is None
    &&& i.group_key is None
    &&& i.cohort_size is None
    &&& field_bytes(*i.fields) == Map::<Seq<char>, Seq<u8>>::empty()
    &&& metadata_of(*i.metadata) == Map::<Seq<char>, JsonV>::empty()
    &&& i.gate_keys@.len() == 0
    &&& i.entity_document is None
}

/// The item has nothing but its identifier.
pub open spec fn default_empty(i: PushItem) -> bool {
    payload_only(i) && i.payload is None && i.index_fields.empty
}

fn no_fields(m: &FieldMap) -> (r: bool)
    ensures
        r == (field_bytes(*m) == Map::<Seq<char>, Seq<u8>>::empty()),
{
    let n = m.len();
    proof {
        if n == 0 {
            assert(field_bytes(*m) =~= Map::<Seq<char>, Seq<u8>>::empty()) by {
                assert forall|k: Seq<char>| !field_bytes(*m).contains_key(k) by {
                    if m@.contains_key(k) {
                        assert(m.listing().contains(k));
                    }
                }
            }
        } else {
            assert(m@.contains_key(m.listing()[0]));
            assert(field_bytes(*m).contains_key(m.listing()[0]));
        }
    }
    n == 0
}

pub fn is_payload_index_push_item(item: &PushItem) -> (r: bool)
    ensures
        r == payload_only(*item),
{
    same_text(item.client_item_key.as_str(), decimal(item.item_id).as_str())
        && item.priority.is_none() && item.not_before.is_none() && item.group_key.is_none()
        && item.cohort_size.is_none() && no_fields(&item.fields) && no_metadata(&item.metadata)
        && item.gate_keys.len() == 0 && item.entity_document.is_none()
}

pub fn is_default_empty_push_item(item: &PushItem) -> (r: bool)
    ensures
        r == default_empty(*item),
{
    is_payload_index_push_item(item) && item.payload.is_none() && item.index_fields.empty
}

/// All items came at one time.
pub open spec fn one_time(specs: Seq<InsertItemSpec>) -> bool {
    forall|i: int| 0 <= i < specs.len() ==> (#[trigger] specs[i]).now == specs[0].now
}

pub open spec fn all_default(specs: Seq<InsertItemSpec>) -> bool {
    forall|i: int| 0 <= i < specs.len() ==> default_empty(*(#[trigger] specs[i]).item)
}

pub open spec fn all_payload(specs: Seq<InsertItemSpec>) -> bool {
    forall|i: int| 0 <= i < specs.len() ==> payload_only(*(#[trigger] specs[i]).item)
}

fn is_one_time(specs: &Vec<InsertItemSpec>) -> (r: bool)
    requires
        specs@.len() > 0,
    ensures
        r == one_time(specs@),
{
    let mut i: usize = 0;
    while i < specs.len()
        invariant
            0 <= i <= specs@.len(),
            specs@.len() > 0,
            forall|j: int| 0 <= j < i ==> (#[trigger] specs@[j]).now == specs@[0].now,
        decreases specs@.len() - i,
    {
        if specs[i].now != specs[0].now {
            assert(specs@[i as int].now != specs@[0].now);
            return false;
        }
        i = i + 1;
    }
    true
}

fn is_all_default(specs: &Vec<InsertItemSpec>) -> (r: bool)
    ensures
        r == all_default(specs@),
{
    let mut i: usize = 0;
    while i < specs.len()
        invariant
            i <= specs@.len(),
            forall|j: int| 0 <= j < i ==> default_empty(*(#[trigger] specs@[j]).item),
        decreases specs@.len() - i,
    {
        if !is_default_empty_push_item(specs[i].item) {
            assert(!default_empty(*specs@[i as int].item));
            return false;
        }
        i = i + 1;
    }
    true
}

fn is_all_payload(specs: &Vec<InsertItemSpec>) -> (r: bool)
    ensures
        r == all_payload(specs@),
{
    let mut i: usize = 0;
    while i < specs.len()
        invariant
            i <= specs@.len(),
            forall|j: int| 0 <= j < i ==> payload_only(*(#[trigger] specs@[j]).item),
        decreases specs@.len() - i,
    {
        if !is_payload_index_push_item(specs[i].item) {
            assert(!payload_only(*specs@[i as int].item));
            return false;
        }
        i = i + 1;
    }
    true
}

/// The row of an item without anything, at its place in the creation order.
pub open spec fn empty_cells(q: QueueV, s: InsertItemSpec, seq: i64) -> Seq<CellV> {
    own(q).push(CellV::Text(numeral(s.item.item_id as nat))).push(
        CellV::Text(numeral(s.item.item_id as nat)),
    ).push(CellV::Integer(nanos(s.now))).push(CellV::Integer(s.command_seq as i64)).push(
        CellV::Integer(nanos(s.now)),
    ).push(CellV::Integer(nanos(s.now))).push(CellV::Integer(s.item.max_attempts as i64)).push(
        CellV::Integer(seq),
    )
}

pub open spec fn empty_rows(q: QueueV, specs: Seq<InsertItemSpec>, base: i64) -> Seq<Seq<CellV>> {
    Seq::new(
        specs.len(),
        |i: int| empty_cells(q, specs[i], wrapped_sum(base, i as i64)),
    )
}

/// Inserts rows of items without anything.
pub fn insert_default_empty_item_specs<T: RelTx>(
    tx: &mut RelSession<T>,
    shard: &QueueKey,
    specs: &Vec<InsertItemSpec>,
    base_seq: i64,
) -> (r: EngineResult<()>)
    ensures
        held(
            old(tx).trace(),
            final(tx).trace(),
            rows_in(
                INSERT_EMPTY_ITEMS@,
                EMPTY_ITEM_ROW@,
                Seq::empty(),
                empty_rows(shard@, specs@, base_seq),
                Seq::empty(),
                RELATIONAL_BATCH as nat,
            ),
            outcome(r),
        ),
{
    let ghost all = empty_rows(shard@, specs@, base_seq);
    let mut rows: Vec<Params> = Vec::new();
    let mut i: usize = 0;
    assert(params_v(rows@) =~= all.take(0));
    while i < specs.len()
        invariant
            i <= specs@.len(),
            all == empty_rows(shard@, specs@, base_seq),
            params_v(rows@) == all.take(i as int),
        decreases specs@.len() - i,
    {
        let spec = &specs[i];
        let now_n = ts_nanos(spec.now);
        let id = decimal(spec.item.item_id);
        let ghost before = rows@;
        let p = own_params(shard).text(id.as_str()).text(id.as_str()).number(now_n).number(
            spec.command_seq as i64,
        ).number(now_n).number(now_n).number(spec.item.max_attempts as i64).number(
            wrap_sum(base_seq, i as i64),
        );
        rows.push(p);
        proof {
            assert(all[i as int] == p@);
            assert(params_v(rows@) =~= params_v(before).push(p@));
            assert(all.take(i as int + 1) =~= all.take(i as int).push(all[i as int]));
        }
        i = i + 1;
    }
    assert(all.take(i as int) =~= all);
    assert(""@ =~= Seq::<char>::empty()) by {
        reveal_strlit("");
    }
    run_rows(
        tx,
        INSERT_EMPTY_ITEMS,
        EMPTY_ITEM_ROW,
        "",
        &rows,
        &Params::new(),
        RELATIONAL_BATCH,
    )
}

/// The stored form of index values.
pub open spec fn stored_fields(f: IndexFields) -> Result<Option<Seq<u8>>, ErrorV> {
    match f.stored {
        Ok(b) => Ok(bytes_opt(b)),
        Err(t) => Err(ErrorV::Storage(t@)),
    }
}

pub fn encode_index_fields_blob(f: &IndexFields) -> (r: EngineResult<Option<Vec<u8>>>)
    ensures
        (match r {
            Ok(b) => Ok(bytes_opt(b)),
            Err(e) => Err(e@),
        }) == stored_fields(*f),
{
    match &f.stored {
        Ok(Some(b)) => Ok(Some(clone_bytes(b))),
        Ok(None) => Ok(None),
        Err(t) => Err(EngineError::Storage(t.clone())),
    }
}

/// The row of an item with a payload and index values.
pub open spec fn payload_cells(q: QueueV, s: InsertItemSpec, seq: i64) -> Result<
    Seq<CellV>,
    ErrorV,
> {
    match stored_fields(*s.item.index_fields) {
        Err(e) => Err(e),
        Ok(stored) => Ok(
            own(q).push(CellV::Text(numeral(s.item.item_id as nat))).push(
                CellV::Text(numeral(s.item.item_id as nat)),
            ).push(CellV::Integer(nanos(s.now))).push(blob_cell(opt_bytes(s.item.payload))).push(
                blob_cell(stored),
            ).push(CellV::Integer(s.command_seq as i64)).push(CellV::Integer(nanos(s.now))).push(
                CellV::Integer(nanos(s.now)),
            ).push(CellV::Integer(s.item.max_attempts as i64)).push(CellV::Integer(seq)),
        ),
    }
}

/// One row after another, each stretch said once its rows are made.
pub open spec fn payload_stretch(q: QueueV, specs: Seq<InsertItemSpec>, base: i64) -> spec_fn(
    Seq<int>,
) -> Script<Result<(), ErrorV>> {
    |chunk: Seq<int>|
        match all_of(chunk, payload_row(q, specs, base)) {
            Err(e) => Script::Done(Err(e)),
            Ok(rows) => done(
                valued(INSERT_PAYLOAD_ITEMS@, PAYLOAD_ITEM_ROW@, rows.len(), Seq::empty()),
                flat(rows) + Seq::<CellV>::empty(),
            ),
        }
}

pub open spec fn payload_row(q: QueueV, specs: Seq<InsertItemSpec>, base: i64) -> spec_fn(
    int,
) -> Result<Seq<CellV>, ErrorV> {
    |i: int| payload_cells(q, specs[i], wrapped_sum(base, i as i64))
}

/// The places of a list.
pub open spec fn places(n: nat) -> Seq<int> {
    Seq::new(n, |i: int| i)
}

pub open spec fn inserts_payload(q: QueueV, specs: Seq<InsertItemSpec>, base: i64) -> Script<
    Result<(), ErrorV>,
> {
    each(
        chunks(places(specs.len()), RELATIONAL_BATCH as nat),
        payload_stretch(q, specs, base),
    )
}

fn payload_params(
    shard: &QueueKey,
    specs: &Vec<InsertItemSpec>,
    base_seq: i64,
    from: usize,
    to: usize,
) -> (r: EngineResult<Vec<Params>>)
    requires
        from <= to <= specs@.len(),
    ensures
        (match r {
            Ok(v) => Ok(params_v(v@)),
            Err(e) => Err(e@),
        }) == all_of(
            places(specs@.len()).subrange(from as int, to as int),
            payload_row(shard@, specs@, base_seq),
        ),
{
    let ghost list = places(specs@.len()).subrange(from as int, to as int);
    let ghost f = payload_row(shard@, specs@, base_seq);
    let mut rows: Vec<Params> = Vec::new();
    let mut i: usize = from;
    assert(list.take(0) =~= Seq::<int>::empty());
    assert(params_v(rows@) =~= Seq::<Seq<CellV>>::empty());
    while i < to
        invariant
            from <= i <= to <= specs@.len(),
            list == places(specs@.len()).subrange(from as int, to as int),
            f == payload_row(shard@, specs@, base_seq),
            all_of(list.take(i - from), f) == Ok::<Seq<Seq<CellV>>, ErrorV>(params_v(rows@)),
        decreases to - i,
    {
        proof {
            lemma_all_of_step(list, f, i - from);
            assert(list[i - from] == i);
        }
        let spec = &specs[i];
        let stored = match encode_index_fields_blob(&spec.item.index_fields) {
            Err(e) => {
                proof {
                    lemma_all_of_stops(list, f, i - from + 1, e@);
                }
                return Err(e);
            },
            Ok(b) => b,
        };
        let now_n = ts_nanos(spec.now);
        let id = decimal(spec.item.item_id);
        let ghost before = rows@;
        let p = own_params(shard).text(id.as_str()).text(id.as_str()).number(now_n).maybe_blob(
            &buffer_bytes(&spec.item.payload),
        ).maybe_blob(&stored).number(spec.command_seq as i64).number(now_n).number(now_n).number(
            spec.item.max_attempts as i64,
        ).number(wrap_sum(base_seq, i as i64));
        rows.push(p);
        assert(params_v(rows@) =~= params_v(before).push(p@));
        i = i + 1;
    }
    assert(list.take(i - from) =~= list);
    Ok(rows)
}

fn insert_payload_stretch<T: RelTx>(
    tx: &mut RelSession<T>,
    shard: &QueueKey,
    specs: &Vec<InsertItemSpec>,
    base_seq: i64,
    from: usize,
    to: usize,
) -> (r: EngineResult<()>)
    requires
        from <= to <= specs@.len(),
    ensures
        held(
            old(tx).trace(),
            final(tx).trace(),
            payload_stretch(shard@, specs@, base_seq)(
                places(specs@.len()).subrange(from as int, to as int),
            ),
            outcome(r),
        ),
{
    proof {
        lemma_start(
            tx.trace(),
            payload_stretch(shard@, specs@, base_seq)(
                places(specs@.len()).subrange(from as int, to as int),
            ),
        );
    }
    let rows = match payload_params(shard, specs, base_seq, from, to) {
        Err(e) => return Err(e),
        Ok(v) => v,
    };
    assert(""@ =~= Seq::<char>::empty()) by {
        reveal_strlit("");
    }
    let n = rows.len();
    assert(params_v(rows@).subrange(0, n as int) =~= params_v(rows@));
    let sql = values_sql(INSERT_PAYLOAD_ITEMS, PAYLOAD_ITEM_ROW, n, "");
    rel_done(tx, sql.as_str(), flatten_rows(&rows, 0, n).joined(&Params::new()))
}

/// Inserts rows of items with a payload and index values.
pub fn insert_payload_index_item_specs<T: RelTx>(
    tx: &mut RelSession<T>,
    shard: &QueueKey,
    specs: &Vec<InsertItemSpec>,
    base_seq: i64,
) -> (r: EngineResult<()>)
    ensures
        held(
            old(tx).trace(),
            final(tx).trace(),
            inserts_payload(shard@, specs@, base_seq),
            outcome(r),
        ),
{
    let ghost all = places(specs@.len());
    let ghost f = payload_stretch(shard@, specs@, base_seq);
    let ghost prog = inserts_payload(shard@, specs@, base_seq);
    let ghost start = tx.trace();
    let n = specs.len();
    let mut i: usize = 0;
    proof {
        lemma_start(start, prog);
        assert(all.skip(0) =~= all);
    }
    while i < n
        invariant
            i <= n,
            n == all.len(),
            n == specs@.len(),
            all == places(specs@.len()),
            start == old(tx).trace(),
            f == payload_stretch(shard@, specs@, base_seq),
            prog == inserts_payload(shard@, specs@, base_seq),
            reached(
                start,
                tx.trace(),
                prog,
                each(chunks(all.skip(i as int), RELATIONAL_BATCH as nat), f),
            ),
        decreases n - i,
    {
        let end = stretch_end(i, n, RELATIONAL_BATCH);
        proof {
            lemma_stretch(all, i as int, end as int, RELATIONAL_BATCH as nat);
        }
        match insert_payload_stretch(tx, shard, specs, base_seq, i, end) {
            Err(e) => return Err(e),
            Ok(_) => {},
        }
        i = end;
    }
    assert(all.skip(i as int) =~= Seq::<int>::empty());
    Ok(())
}

/// An item's gates, each pair of item and gate once.
pub open spec fn gate_pairs_of(
    pairs: Seq<(Seq<char>, Seq<char>)>,
    id: Seq<char>,
    keys: Seq<Seq<char>>,
) -> Seq<(Seq<char>, Seq<char>)>
    decreases keys.len(),
{
    if keys.len() == 0 {
        pairs
    } else {
        let before = gate_pairs_of(pairs, id, keys.drop_last());
        if before.contains((id, keys.last())) {
            before
        } else {
            before.push((id, keys.last()))
        }
    }
}

pub open spec fn gate_pairs(specs: Seq<InsertItemSpec>) -> Seq<(Seq<char>, Seq<char>)>
    decreases specs.len(),
{
    if specs.len() == 0 {
        Seq::empty()
    } else {
        let item = *specs.last().item;
        gate_pairs_of(
            gate_pairs(specs.drop_last()),
            numeral(item.item_id as nat),
            texts(item.gate_keys@),
        )
    }
}

proof fn lemma_pairs_stay_distinct(
    pairs: Seq<(Seq<char>, Seq<char>)>,
    id: Seq<char>,
    keys: Seq<Seq<char>>,
)
    requires
        pairs.no_duplicates(),
    ensures
        gate_pairs_of(pairs, id, keys).no_duplicates(),
    decreases keys.len(),
{
    if keys.len() > 0 {
        let before = gate_pairs_of(pairs, id, keys.drop_last());
        lemma_pairs_stay_distinct(pairs, id, keys.drop_last());
        let x = (id, keys.last());
        if !before.contains(x) {
            let all = before.push(x);
            assert forall|i: int, j: int| 0 <= i < all.len() && 0 <= j < all.len() && i
                != j implies all[i] != all[j] by {
                if i < before.len() {
                    assert(before.contains(before[i]));
                }
                if j < before.len() {
                    assert(before.contains(before[j]));
                }
            }
        }
    }
}

/// No pair of item and gate is stored twice.
pub proof fn law_gate_pairs_are_distinct(specs: Seq<InsertItemSpec>)
    ensures
        gate_pairs(specs).no_duplicates(),
    decreases specs.len(),
{
    if specs.len() > 0 {
        let item = *specs.last().item;
        law_gate_pairs_are_distinct(specs.drop_last());
        lemma_pairs_stay_distinct(
            gate_pairs(specs.drop_last()),
            numeral(item.item_id as nat),
            texts(item.gate_keys@),
        );
    }
}

pub open spec fn pairs_v(p: Seq<(String, String)>) -> Seq<(Seq<char>, Seq<char>)> {
    p.map_values(|x: (String, String)| (x.0@, x.1@))
}

fn holds_pair(pairs: &Vec<(String, String)>, a: &str, b: &str) -> (r: bool)
    ensures
        r == pairs_v(pairs@).contains((a@, b@)),
{
    let ghost all = pairs_v(pairs@);
    let mut i: usize = 0;
    while i < pairs.len()
        invariant
            i <= pairs@.len(),
            all == pairs_v(pairs@),
            forall|j: int| 0 <= j < i ==> all[j] != (a@, b@),
        decreases pairs@.len() - i,
    {
        assert(all[i as int] == (pairs@[i as int].0@, pairs@[i as int].1@));
        if same_text(pairs[i].0.as_str(), a) && same_text(pairs[i].1.as_str(), b) {
            return true;
        }
        i = i + 1;
    }
    false
}

fn add_gate_pairs(pairs: &mut Vec<(String, String)>, id: &str, keys: &Vec<String>)
    ensures
        pairs_v(final(pairs)@) == gate_pairs_of(pairs_v(old(pairs)@), id@, texts(keys@)),
{
    let ghost start = pairs_v(pairs@);
    let ghost all = texts(keys@);
    let mut i: usize = 0;
    assert(all.take(0) =~= Seq::<Seq<char>>::empty());
    while i < keys.len()
        invariant
            i <= keys@.len(),
            all == texts(keys@),
            pairs_v(pairs@) == gate_pairs_of(start, id@, all.take(i as int)),
        decreases keys@.len() - i,
    {
        proof {
            assert(all.take(i as int + 1).drop_last() =~= all.take(i as int));
            assert(all.take(i as int + 1).last() == keys@[i as int]@);
        }
        if !holds_pair(pairs, id, keys[i].as_str()) {
            let ghost before = pairs@;
            pairs.push((id.to_owned(), keys[i].clone()));
            assert(pairs_v(pairs@) =~= pairs_v(before).push((id@, keys@[i as int]@)));
        }
        i = i + 1;
    }
    assert(all.take(i as int) =~= all);
}

pub open spec fn gate_cells(q: QueueV) -> spec_fn((Seq<char>, Seq<char>)) -> Seq<CellV> {
    |p: (Seq<char>, Seq<char>)| own(q).push(CellV::Text(p.0)).push(CellV::Text(p.1))
}

/// Pairs of item and gate are stored, unless they are.
pub open spec fn stores_gates(q: QueueV, pairs: Seq<(Seq<char>, Seq<char>)>, size: nat) -> Script<
    Result<(), ErrorV>,
> {
    rows_in(
        INSERT_GATES@,
        "(?,?,?,?)"@,
        INSERT_GATES_END@,
        pairs.map_values(gate_cells(q)),
        Seq::empty(),
        size,
    )
}

/// Rows of a queue's pairs of texts.
pub fn pair_params(shard: &QueueKey, pairs: &Vec<(String, String)>) -> (r: Vec<Params>)
    ensures
        params_v(r@) == pairs_v(pairs@).map_values(gate_cells(shard@)),
{
    let ghost all = pairs_v(pairs@).map_values(gate_cells(shard@));
    let mut rows: Vec<Params> = Vec::new();
    let mut i: usize = 0;
    assert(params_v(rows@) =~= all.take(0));
    while i < pairs.len()
        invariant
            i <= pairs@.len(),
            all == pairs_v(pairs@).map_values(gate_cells(shard@)),
            params_v(rows@) == all.take(i as int),
        decreases pairs@.len() - i,
    {
        let ghost before = rows@;
        let p = own_params(shard).text(pairs[i].0.as_str()).text(pairs[i].1.as_str());
        rows.push(p);
        proof {
            assert(pairs_v(pairs@)[i as int] == (pairs@[i as int].0@, pairs@[i as int].1@));
            assert(all[i as int] == p@);
            assert(params_v(rows@) =~= params_v(before).push(p@));
            assert(all.take(i as int + 1) =~= all.take(i as int).push(all[i as int]));
        }
        i = i + 1;
    }
    assert(all.take(i as int) =~= all);
    rows
}

/// Inserts the gates of new items.
pub fn insert_gates<T: RelTx>(
    tx: &mut RelSession<T>,
    shard: &QueueKey,
    specs: &Vec<InsertItemSpec>,
) -> (r: EngineResult<()>)
    ensures
        held(
            old(tx).trace(),
            final(tx).trace(),
            stores_gates(shard@, gate_pairs(specs@), RELATIONAL_BATCH as nat),
            outcome(r),
        ),
{
    let mut pairs: Vec<(String, String)> = Vec::new();
    let mut i: usize = 0;
    assert(specs@.take(0) =~= Seq::<InsertItemSpec>::empty());
    assert(pairs_v(pairs@) =~= Seq::<(Seq<char>, Seq<char>)>::empty());
    while i < specs.len()
        invariant
            i <= specs@.len(),
            pairs_v(pairs@) == gate_pairs(specs@.take(i as int)),
        decreases specs@.len() - i,
    {
        proof {
            assert(specs@.take(i as int + 1).drop_last() =~= specs@.take(i as int));
            assert(specs@.take(i as int + 1).last() == specs@[i as int]);
        }
        add_gate_pairs(
            &mut pairs,
            decimal(specs[i].item.item_id).as_str(),
            &specs[i].item.gate_keys,
        );
        i = i + 1;
    }
    assert(specs@.take(i as int) =~= specs@);
    let rows = pair_params(shard, &pairs);
    run_rows(
        tx,
        INSERT_GATES,
        "(?,?,?,?)",
        INSERT_GATES_END,
        &rows,
        &Params::new(),
        RELATIONAL_BATCH,
    )
}

/// A priority is written down, if there is one.
pub open spec fn writes_priority(p: Option<PriorityV>) -> Script<Result<Option<Seq<char>>, ErrorV>> {
    match p {
        None => Script::Done(Ok(None)),
        Some(x) => chain(
            write_priority(x),
            |t: Seq<char>| Script::Done(Ok::<Option<Seq<char>>, ErrorV>(Some(t))),
        ),
    }
}

pub open spec fn opt_text_outcome(r: EngineResult<Option<String>>) -> Result<
    Option<Seq<char>>,
    ErrorV,
> {
    match r {
        Ok(t) => Ok(opt_text(t)),
        Err(e) => Err(e@),
    }
}

pub fn priority_to_json<T: RelTx + RelCodec>(
    tx: &mut RelSession<T>,
    priority: &Option<PriorityValue>,
) -> (r: EngineResult<Option<String>>)
    ensures
        held(
            old(tx).trace(),
            final(tx).trace(),
            writes_priority(opt_priority(*priority)),
            opt_text_outcome(r),
        ),
{
    proof {
        lemma_start(tx.trace(), writes_priority(opt_priority(*priority)));
    }
    match priority {
        None => Ok(None),
        Some(p) => match tx.priority_text(p) {
            Err(e) => Err(e),
            Ok(t) => Ok(Some(t)),
        },
    }
}

/// A document is written down, if there is one.
pub open spec fn writes_document(d: Option<EntityV>) -> Script<Result<Option<Seq<char>>, ErrorV>> {
    match d {
        None => Script::Done(Ok(None)),
        Some(x) => chain(
            write_document(x.document),
            |t: Seq<char>| Script::Done(Ok::<Option<Seq<char>>, ErrorV>(Some(t))),
        ),
    }
}

pub fn entity_to_json<T: RelTx + RelCodec>(
    tx: &mut RelSession<T>,
    entity: &Option<std::sync::Arc<Entity>>,
) -> (r: EngineResult<Option<String>>)
    ensures
        held(
            old(tx).trace(),
            final(tx).trace(),
            writes_document(opt_doc(*entity)),
            opt_text_outcome(r),
        ),
{
    proof {
        lemma_start(tx.trace(), writes_document(opt_doc(*entity)));
    }
    match entity {
        None => Ok(None),
        Some(d) => match tx.document_text(&d.document) {
            Err(e) => Err(e),
            Ok(t) => Ok(Some(t)),
        },
    }
}

/// The row of an item, once its values are written down.
pub open spec fn item_cells(
    q: QueueV,
    s: InsertItemSpec,
    model: PriorityModel,
    seq: i64,
    priority: Option<Seq<char>>,
    fields: Seq<char>,
    metadata: Seq<char>,
    document: Option<Seq<char>>,
    stored: Option<Seq<u8>>,
) -> Seq<CellV> {
    own(q).push(CellV::Text(numeral(s.item.item_id as nat))).push(
        CellV::Text(s.item.client_item_key@),
    ).push(text_cell(priority)).push(
        CellV::Blob(sort_column(opt_priority(s.item.priority), model)),
    ).push(int_cell(opt_nanos(s.item.not_before))).push(
        CellV::Integer(
            match s.item.not_before {
                Some(nb) => nanos(nb),
                None => nanos(s.now),
            },
        ),
    ).push(text_cell(opt_text(s.item.group_key))).push(int_cell(size_column(s.item.cohort_size))).push(
        blob_cell(opt_bytes(s.item.payload)),
    ).push(CellV::Text(fields)).push(CellV::Text(metadata)).push(text_cell(document)).push(
        blob_cell(stored),
    ).push(CellV::Integer(s.command_seq as i64)).push(CellV::Integer(nanos(s.now))).push(
        CellV::Integer(nanos(s.now)),
    ).push(CellV::Integer(s.item.max_attempts as i64)).push(CellV::Integer(seq))
}

pub open spec fn size_column(n: Option<u64>) -> Option<i64> {
    match n {
        Some(x) => Some(x as i64),
        None => None,
    }
}

/// The values of an item are written down and make its row.
pub open spec fn makes_row(q: QueueV, s: InsertItemSpec, model: PriorityModel, seq: i64) -> Script<
    Result<Seq<CellV>, ErrorV>,
> {
    chain(
        writes_priority(opt_priority(s.item.priority)),
        |priority: Option<Seq<char>>|
            match fields_text(field_bytes(*s.item.fields)) {
                Err(e) => Script::Done(Err::<Seq<CellV>, ErrorV>(e)),
                Ok(fields) => chain(
                    write_metadata(metadata_of(*s.item.metadata)),
                    |metadata: Seq<char>|
                        chain(
                            writes_document(opt_doc(s.item.entity_document)),
                            |document: Option<Seq<char>>|
                                match stored_fields(*s.item.index_fields) {
                                    Err(e) => Script::Done(Err::<Seq<CellV>, ErrorV>(e)),
                                    Ok(stored) => Script::Done(
                                        Ok(
                                            item_cells(
                                                q,
                                                s,
                                                model,
                                                seq,
                                                priority,
                                                fields,
                                                metadata,
                                                document,
                                                stored,
                                            ),
                                        ),
                                    ),
                                },
                        ),
                ),
            },
    )
}

fn make_row<T: RelTx + RelCodec>(
    tx: &mut RelSession<T>,
    shard: &QueueKey,
    spec: &InsertItemSpec,
    model: &PriorityModel,
    seq: i64,
) -> (r: EngineResult<Params>)
    ensures
        held(
            old(tx).trace(),
            final(tx).trace(),
            makes_row(shard@, *spec, *model, seq),
            (match r {
                Ok(p) => Ok(p@),
                Err(e) => Err(e@),
            }),
        ),
{
    proof {
        lemma_start(tx.trace(), makes_row(shard@, *spec, *model, seq));
    }
    let item = spec.item;
    let priority = match priority_to_json(tx, &item.priority) {
        Err(e) => return Err(e),
        Ok(t) => t,
    };
    let fields = match fields_to_json(&item.fields) {
        Err(e) => return Err(e),
        Ok(t) => t,
    };
    let metadata = match tx.metadata_text(&item.metadata) {
        Err(e) => return Err(e),
        Ok(t) => t,
    };
    let document = match entity_to_json(tx, &item.entity_document) {
        Err(e) => return Err(e),
        Ok(t) => t,
    };
    let stored = match encode_index_fields_blob(&item.index_fields) {
        Err(e) => return Err(e),
        Ok(b) => b,
    };
    let now_n = ts_nanos(spec.now);
    let since = match item.not_before {
        Some(nb) => ts_nanos(nb),
        None => now_n,
    };
    let size = match item.cohort_size {
        Some(x) => Some(x as i64),
        None => None,
    };
    Ok(
        own_params(shard).text(decimal(item.item_id).as_str()).text(
            item.client_item_key.as_str(),
        ).maybe_text(&priority).blob(&elig_sort(&item.priority, model)).maybe_int(
            ts_nanos_opt(item.not_before),
        ).number(since).maybe_text(&item.group_key).maybe_int(size).maybe_blob(
            &buffer_bytes(&item.payload),
        ).text(fields.as_str()).text(metadata.as_str()).maybe_text(&document).maybe_blob(
            &stored,
        ).number(spec.command_seq as i64).number(now_n).number(now_n).number(
            item.max_attempts as i64,
        ).number(seq),
    )
}

/// One more row.
pub open spec fn next_row(
    q: QueueV,
    specs: Seq<InsertItemSpec>,
    model: PriorityModel,
    base: i64,
) -> spec_fn(Seq<Seq<CellV>>, int) -> Script<Result<Seq<Seq<CellV>>, ErrorV>> {
    |rows: Seq<Seq<CellV>>, i: int|
        chain(
            makes_row(q, specs[i], model, wrapped_sum(base, i as i64)),
            |row: Seq<CellV>| Script::Done(Ok::<Seq<Seq<CellV>>, ErrorV>(rows.push(row))),
        )
}

pub open spec fn makes_rows(
    q: QueueV,
    specs: Seq<InsertItemSpec>,
    model: PriorityModel,
    base: i64,
) -> Script<Result<Seq<Seq<CellV>>, ErrorV>> {
    fold(places(specs.len()), Seq::<Seq<CellV>>::empty(), next_row(q, specs, model, base))
}

pub open spec fn params_outcome(r: EngineResult<Vec<Params>>) -> Result<
    Seq<Seq<CellV>>,
    ErrorV,
> {
    match r {
        Ok(v) => Ok(params_v(v@)),
        Err(e) => Err(e@),
    }
}

fn add_row<T: RelTx + RelCodec>(
    tx: &mut RelSession<T>,
    shard: &QueueKey,
    specs: &Vec<InsertItemSpec>,
    model: &PriorityModel,
    base_seq: i64,
    rows: &mut Vec<Params>,
    i: usize,
) -> (r: EngineResult<()>)
    requires
        i < specs@.len(),
    ensures
        held(
            old(tx).trace(),
            final(tx).trace(),
            next_row(shard@, specs@, *model, base_seq)(params_v(old(rows)@), i as int),
            (match r {
                Ok(_) => Ok(params_v(final(rows)@)),
                Err(e) => Err(e@),
            }),
        ),
{
    proof {
        lemma_start(
            tx.trace(),
            next_row(shard@, specs@, *model, base_seq)(params_v(rows@), i as int),
        );
    }
    match make_row(tx, shard, &specs[i], model, wrap_sum(base_seq, i as i64)) {
        Err(e) => Err(e),
        Ok(p) => {
            let ghost before = rows@;
            rows.push(p);
            assert(params_v(rows@) =~= params_v(before).push(p@));
            Ok(())
        },
    }
}

fn make_rows<T: RelTx + RelCodec>(
    tx: &mut RelSession<T>,
    shard: &QueueKey,
    specs: &Vec<InsertItemSpec>,
    model: &PriorityModel,
    base_seq: i64,
) -> (r: EngineResult<Vec<Params>>)
    ensures
        held(
            old(tx).trace(),
            final(tx).trace(),
            makes_rows(shard@, specs@, *model, base_seq),
            params_outcome(r),
        ),
{
    let ghost all = places(specs@.len());
    let ghost f = next_row(shard@, specs@, *model, base_seq);
    let ghost prog = makes_rows(shard@, specs@, *model, base_seq);
    let ghost start = tx.trace();
    let mut rows: Vec<Params> = Vec::new();
    let mut i: usize = 0;
    proof {
        lemma_start(start, prog);
        assert(all.skip(0) =~= all);
        assert(params_v(rows@) =~= Seq::<Seq<CellV>>::empty());
    }
    while i < specs.len()
        invariant
            i <= specs@.len(),
            all == places(specs@.len()),
            start == old(tx).trace(),
            f == next_row(shard@, specs@, *model, base_seq),
            prog == makes_rows(shard@, specs@, *model, base_seq),
            reached(start, tx.trace(), prog, fold(all.skip(i as int), params_v(rows@), f)),
        decreases specs@.len() - i,
    {
        proof {
            assert(all.skip(i as int)[0] == i);
            assert(all.skip(i as int).drop_first() =~= all.skip(i as int + 1));
        }
        match add_row(tx, shard, specs, model, base_seq, &mut rows, i) {
            Err(e) => return Err(e),
            Ok(_) => {},
        }
        i = i + 1;
    }
    assert(all.skip(i as int) =~= Seq::<int>::empty());
    Ok(rows)
}

/// The latest time of a batch.
pub open spec fn latest_time(specs: Seq<InsertItemSpec>) -> i64
    decreases specs.len(),
{
    if specs.len() == 0 {
        i64::MIN
    } else if nanos(specs.last().now) >= latest_time(specs.drop_last()) {
        nanos(specs.last().now)
    } else {
        latest_time(specs.drop_last())
    }
}

fn latest_now(specs: &Vec<InsertItemSpec>) -> (r: i64)
    ensures
        r == latest_time(specs@),
{
    let mut best: i64 = -0x8000_0000_0000_0000;
    let mut i: usize = 0;
    assert(specs@.take(0) =~= Seq::<InsertItemSpec>::empty());
    while i < specs.len()
        invariant
            i <= specs@.len(),
            best == latest_time(specs@.take(i as int)),
        decreases specs@.len() - i,
    {
        proof {
            assert(specs@.take(i as int + 1).drop_last() =~= specs@.take(i as int));
            assert(specs@.take(i as int + 1).last() == specs@[i as int]);
        }
        let n = ts_nanos(specs[i].now);
        if n >= best {
            best = n;
        }
        i = i + 1;
    }
    assert(specs@.take(i as int) =~= specs@);
    best
}

/// The typed indexes of a queue.
pub open spec fn typed_of(queues: Map<QueueV, QueueDefinition>, q: QueueV) -> Seq<QueueIndexV> {
    if queues.contains_key(q) {
        typed_specs_v(queues[q].typed_indexes@)
    } else {
        Seq::empty()
    }
}

/// The rows of new items, however plain, with all that belongs to them.
pub open spec fn inserts_full(
    queues: Map<QueueV, QueueDefinition>,
    model: PriorityModel,
    q: QueueV,
    specs: Seq<InsertItemSpec>,
    base: i64,
) -> Script<Result<i64, ErrorV>> {
    chain(
        makes_rows(q, specs, model, base),
        |rows: Seq<Seq<CellV>>|
            chain(
                rows_in(
                    INSERT_ITEMS@,
                    ITEM_ROW@,
                    Seq::empty(),
                    rows,
                    Seq::empty(),
                    RELATIONAL_BATCH as nat,
                ),
                |u: ()|
                    chain(
                        stores_gates(q, gate_pairs(specs), RELATIONAL_BATCH as nat),
                        |v: ()|
                            chain(
                                records_cohorts(queues, q, specs, latest_time(specs)),
                                |w: ()|
                                    chain(
                                        maintains(q, typed_of(queues, q), specs),
                                        |x: ()| Script::Done(Ok::<i64, ErrorV>(base)),
                                    ),
                            ),
                    ),
            ),
    )
}

/// The rows of new items from a place of the creation order on.
pub open spec fn inserts_from(
    queues: Map<QueueV, QueueDefinition>,
    model: PriorityModel,
    q: QueueV,
    specs: Seq<InsertItemSpec>,
    base: i64,
) -> Script<Result<i64, ErrorV>> {
    if typed_of(queues, q).len() == 0 && one_time(specs) && all_default(specs) {
        chain(
            rows_in(
                INSERT_EMPTY_ITEMS@,
                EMPTY_ITEM_ROW@,
                Seq::empty(),
                empty_rows(q, specs, base),
                Seq::empty(),
                RELATIONAL_BATCH as nat,
            ),
            |u: ()| Script::Done(Ok::<i64, ErrorV>(base)),
        )
    } else if one_time(specs) && all_payload(specs) {
        chain(
            inserts_payload(q, specs, base),
            |u: ()|
                chain(
                    maintains(q, typed_of(queues, q), specs),
                    |v: ()| Script::Done(Ok::<i64, ErrorV>(base)),
                ),
        )
    } else {
        inserts_full(queues, model, q, specs, base)
    }
}

/// New items take the next places of the creation order and are stored. The outcome is the first of
/// those places.
pub open spec fn inserts(
    queues: Map<QueueV, QueueDefinition>,
    model: PriorityModel,
    q: QueueV,
    specs: Seq<InsertItemSpec>,
) -> Script<Result<i64, ErrorV>> {
    if specs.len() == 0 {
        Script::Done(Ok(0))
    } else {
        chain(
            one(SELECT_NEXT_ITEM_SEQUENCE@, own(q)),
            |row: Seq<CellV>|
                match column::<i64>(row, 0) {
                    Err(e) => Script::Done(Err::<i64, ErrorV>(e)),
                    Ok(base) => chain(
                        done(
                            UPDATE_NEXT_ITEM_SEQUENCE@,
                            own(q).push(CellV::Integer(wrapped_sum(base, specs.len() as i64))),
                        ),
                        |u: ()| inserts_from(queues, model, q, specs, base),
                    ),
                },
        )
    }
}

fn insert_full<T: RelTx + RelCodec>(
    tx: &mut RelSession<T>,
    queues: &Queues,
    model: &PriorityModel,
    shard: &QueueKey,
    specs: &Vec<InsertItemSpec>,
    typed_indexes: &Vec<QueueIndex>,
    base_seq: i64,
) -> (r: EngineResult<i64>)
    requires
        typed_specs_v(typed_indexes@) == typed_of(queues@, shard@),
    ensures
        held(
            old(tx).trace(),
            final(tx).trace(),
            inserts_full(queues@, *model, shard@, specs@, base_seq),
            outcome(r),
        ),
{
    proof {
        lemma_start(tx.trace(), inserts_full(queues@, *model, shard@, specs@, base_seq));
        assert(""@ =~= Seq::<char>::empty()) by {
            reveal_strlit("");
        }
    }
    let rows = match make_rows(tx, shard, specs, model, base_seq) {
        Err(e) => return Err(e),
        Ok(v) => v,
    };
    match run_rows(tx, INSERT_ITEMS, ITEM_ROW, "", &rows, &Params::new(), RELATIONAL_BATCH) {
        Err(e) => return Err(e),
        Ok(_) => {},
    }
    match insert_gates(tx, shard, specs) {
        Err(e) => return Err(e),
        Ok(_) => {},
    }
    match upsert_cohorts(tx, queues, shard, specs, latest_now(specs)) {
        Err(e) => return Err(e),
        Ok(_) => {},
    }
    match maintain_typed_indexes_on_insert(tx, shard, typed_indexes, specs) {
        Err(e) => Err(e),
        Ok(_) => Ok(base_seq),
    }
}

fn insert_from<T: RelTx + RelCodec>(
    tx: &mut RelSession<T>,
    queues: &Queues,
    model: &PriorityModel,
    shard: &QueueKey,
    specs: &Vec<InsertItemSpec>,
    typed_indexes: &Vec<QueueIndex>,
    base_seq: i64,
) -> (r: EngineResult<i64>)
    requires
        specs@.len() > 0,
        typed_specs_v(typed_indexes@) == typed_of(queues@, shard@),
    ensures
        held(
            old(tx).trace(),
            final(tx).trace(),
            inserts_from(queues@, *model, shard@, specs@, base_seq),
            outcome(r),
        ),
{
    proof {
        lemma_start(tx.trace(), inserts_from(queues@, *model, shard@, specs@, base_seq));
        assert(typed_specs_v(typed_indexes@).len() == typed_indexes@.len());
    }
    let homogeneous = is_one_time(specs);
    if typed_indexes.len() == 0 && homogeneous && is_all_default(specs) {
        return match insert_default_empty_item_specs(tx, shard, specs, base_seq) {
            Err(e) => Err(e),
            Ok(_) => Ok(base_seq),
        };
    }
    if homogeneous && is_all_payload(specs) {
        match insert_payload_index_item_specs(tx, shard, specs, base_seq) {
            Err(e) => return Err(e),
            Ok(_) => {},
        }
        return match maintain_typed_indexes_on_insert(tx, shard, typed_indexes, specs) {
            Err(e) => Err(e),
            Ok(_) => Ok(base_seq),
        };
    }
    insert_full(tx, queues, model, shard, specs, typed_indexes, base_seq)
}

/// Stores new items, each with the sequence and the time of its own command.
pub fn insert_item_specs<T: RelTx + RelCodec>(
    tx: &mut RelSession<T>,
    queues: &Queues,
    model: &PriorityModel,
    shard: &QueueKey,
    specs: &Vec<InsertItemSpec>,
) -> (r: EngineResult<i64>)
    ensures
        held(
            old(tx).trace(),
            final(tx).trace(),
            inserts(queues@, *model, shard@, specs@),
            outcome(r),
        ),
{
    proof {
        lemma_start(tx.trace(), inserts(queues@, *model, shard@, specs@));
    }
    if specs.len() == 0 {
        return Ok(0);
    }
    let row = match query_row(tx, SELECT_NEXT_ITEM_SEQUENCE, own_params(shard)) {
        Err(e) => return Err(e),
        Ok(row) => row,
    };
    let base_seq = match row.get::<i64>(0) {
        Err(e) => return Err(e),
        Ok(v) => v,
    };
    match rel_done(
        tx,
        UPDATE_NEXT_ITEM_SEQUENCE,
        own_params(shard).number(wrap_sum(base_seq, specs.len() as i64)),
    ) {
        Err(e) => return Err(e),
        Ok(_) => {},
    }
    let none: Vec<QueueIndex> = Vec::new();
    assert(typed_specs_v(none@) =~= Seq::<QueueIndexV>::empty());
    match queues.get(shard) {
        Some(d) => insert_from(tx, queues, model, shard, specs, &d.typed_indexes, base_seq),
        None => insert_from(tx, queues, model, shard, specs, &none, base_seq),
    }
}

/// New items of one command.
pub open spec fn specs_of<'a>(items: Seq<PushItem>, seq: u64, now: UtcTimestamp) -> Seq<
    InsertItemSpec<'a>,
> {
    items.map_values(|i: PushItem| InsertItemSpec { item: &i, command_seq: seq, now })
}

pub fn specs_for<'a>(items: &'a Vec<PushItem>, seq: u64, now: UtcTimestamp) -> (r: Vec<
    InsertItemSpec<'a>,
>)
    ensures
        r@ == specs_of(items@, seq, now),
{
    let mut out: Vec<InsertItemSpec<'a>> = Vec::new();
    add_specs(&mut out, items, seq, now);
    assert(out@ =~= specs_of(items@, seq, now));
    out
}

/// Adds the new items of a command to a batch.
pub fn add_specs<'a>(
    out: &mut Vec<InsertItemSpec<'a>>,
    items: &'a Vec<PushItem>,
    seq: u64,
    now: UtcTimestamp,
)
    ensures
        final(out)@ == old(out)@ + specs_of(items@, seq, now),
{
    let ghost start = out@;
    let ghost all = specs_of(items@, seq, now);
    let mut i: usize = 0;
    assert(out@ =~= start + all.take(0));
    while i < items.len()
        invariant
            i <= items@.len(),
            all == specs_of(items@, seq, now),
            out@ == start + all.take(i as int),
        decreases items@.len() - i,
    {
        out.push(InsertItemSpec { item: &items[i], command_seq: seq, now });
        assert(out@ =~= start + all.take(i as int + 1));
        i = i + 1;
    }
    assert(all.take(i as int) =~= all);
}

/// Stores the new items of one command.
pub fn insert_items<T: RelTx + RelCodec>(
    tx: &mut RelSession<T>,
    queues: &Queues,
    model: &PriorityModel,
    shard: &QueueKey,
    items: &Vec<PushItem>,
    seq: u64,
    now: UtcTimestamp,
) -> (r: EngineResult<()>)
    ensures
        held(
            old(tx).trace(),
            final(tx).trace(),
            inserts_items(queues@, *model, shard@, items@, seq, now),
            outcome(r),
        ),
{
    proof {
        lemma_start(tx.trace(), inserts_items(queues@, *model, shard@, items@, seq, now));
    }
    let specs = specs_for(items, seq, now);
    match insert_item_specs(tx, queues, model, shard, &specs) {
        Err(e) => Err(e),
        Ok(_) => Ok(()),
    }
}

pub open spec fn inserts_items(
    queues: Map<QueueV, QueueDefinition>,
    model: PriorityModel,
    q: QueueV,
    items: Seq<PushItem>,
    seq: u64,
    now: UtcTimestamp,
) -> Script<Result<(), ErrorV>> {
    chain(
        inserts(queues, model, q, specs_of(items, seq, now)),
        |base: i64| Script::Done(Ok::<(), ErrorV>(())),
    )
}

/// A new grouped item that may be claimed at once.
pub open spec fn new_ref(s: InsertItemSpec, model: PriorityModel, seq: i64) -> Option<RefV> {
    match s.item.group_key {
        None => None,
        Some(g) => if s.item.not_before is Some && nanos(s.item.not_before->Some_0) > nanos(s.now) {
            None
        } else {
            Some(
                RefV {
                    group_key: g@,
                    item_id: numeral(s.item.item_id as nat),
                    eligible_since: match s.item.not_before {
                        Some(nb) => nanos(nb),
                        None => nanos(s.now),
                    },
                    priority_sort: sort_column(opt_priority(s.item.priority), model),
                    created_at: nanos(s.now),
                    created_seq: seq,
                },
            )
        },
    }
}

/// The new grouped items that may be claimed at once.
pub open spec fn new_refs(specs: Seq<InsertItemSpec>, model: PriorityModel, base: i64) -> Seq<RefV>
    decreases specs.len(),
{
    if specs.len() == 0 {
        Seq::empty()
    } else {
        let before = new_refs(specs.drop_last(), model, base);
        match new_ref(specs.last(), model, wrapped_sum(base, (specs.len() - 1) as i64)) {
            Some(x) => before.push(x),
            None => before,
        }
    }
}

pub fn group_item_refs_from_specs(
    specs: &Vec<InsertItemSpec>,
    model: &PriorityModel,
    base_seq: i64,
) -> (r: Vec<GroupItemRef>)
    ensures
        refs_v(r@) == new_refs(specs@, *model, base_seq),
{
    let mut added: Vec<GroupItemRef> = Vec::new();
    let mut i: usize = 0;
    assert(specs@.take(0) =~= Seq::<InsertItemSpec>::empty());
    assert(refs_v(added@) =~= Seq::<RefV>::empty());
    while i < specs.len()
        invariant
            i <= specs@.len(),
            refs_v(added@) == new_refs(specs@.take(i as int), *model, base_seq),
        decreases specs@.len() - i,
    {
        proof {
            assert(specs@.take(i as int + 1).drop_last() =~= specs@.take(i as int));
            assert(specs@.take(i as int + 1).last() == specs@[i as int]);
        }
        let item = specs[i].item;
        match &item.group_key {
            None => {},
            Some(g) => {
                let now_n = ts_nanos(specs[i].now);
                let since = match item.not_before {
                    Some(nb) => ts_nanos(nb),
                    None => now_n,
                };
                if item.not_before.is_none() || since <= now_n {
                    let ghost before = added@;
                    let x = GroupItemRef {
                        group_key: g.clone(),
                        item_id: decimal(item.item_id),
                        eligible_since: since,
                        priority_sort: elig_sort(&item.priority, model),
                        created_at: now_n,
                        created_seq: wrap_sum(base_seq, i as i64),
                    };
                    added.push(x);
                    assert(refs_v(added@) =~= refs_v(before).push(x@));
                }
            },
        }
        i = i + 1;
    }
    assert(specs@.take(i as int) =~= specs@);
    added
}

} // verus!
