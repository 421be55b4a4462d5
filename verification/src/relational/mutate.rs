//! Resolved mutations, gates and side records, in the store.

use crate::relational::codec::{buffer_bytes, elig_sort, fields_text, fields_to_json, nanos, opt_nanos, slice_bytes, sort_column, state_name, state_str, ts_nanos, ts_nanos_opt};
use crate::relational::cohorts::Queues;
use crate::relational::exec::{RelCodec, RelSession, RelTx, one, query_row, rel_exec};
use crate::relational::indexes::native_keys;
use crate::relational::insert::{encode_index_fields_blob, entity_to_json, priority_to_json, stored_fields, typed_of, writes_document, writes_priority};
use crate::relational::lists::{FromRow, params_v, rows_in, run_listed, run_rows, runs_in};
use crate::relational::memory::{DriverMemory, Kept, MemoryV, TokenOp, TokenV, each_kept, hint_reset, hold, noted, pass};
use crate::relational::query::{RELATIONAL_BATCH, own, own_params, reset_claim_scan_hint};
use crate::relational::removal::{apply_purge_sql, purges};
use crate::relational::script::{Script, chain, group_talk, held, lemma_start, reached, run, write_metadata};
use crate::relational::summary::{asks_groups, groups_of, refresh_group_summaries, refreshes};
use crate::relational::update::{GATE_ROW, regates, reindex, reindexes, replace_gates};
use crate::relational::value::{CellV, Params, RelRow, blob_cell, bytes_opt, column, int_cell, text_cell};
use crate::shared::{bytes_of, bytes_slice};
use crate::text::{decimal, numeral, opt_text, texts};
use crate::types::{CommandPosition, EngineError, EngineResult, ErrorV, GateChange, ItemId, ItemState, MutateItemsCommand, QueueDefinition, QueueIndex, QueueIndexV, QueueKey, QueueV, ResolvedItemMutation, ResolvedItemMutationAction, ResolvedItemValues, SideRecord, UtcTimestamp, field_bytes, metadata_of, opt_bytes, opt_doc, opt_priority, outcome, typed_specs_v};
use vstd::prelude::*;
use vstd::string::*;

verus! {

broadcast use group_talk;

pub const BLOCK_GATES: &'static str = "INSERT INTO fireweed_gate_state (tenant_id,queue_id,gate_key) VALUES ";

pub const BLOCK_GATES_END: &'static str = " \
                             ON CONFLICT(tenant_id,queue_id,gate_key) DO NOTHING";

pub const OPEN_GATES: &'static str = "DELETE FROM fireweed_gate_state WHERE tenant_id=? AND queue_id=? \
                             AND gate_key IN";

pub const WRITE_SIDE_RECORDS: &'static str = "INSERT INTO fireweed_side_records (tenant_id,queue_id,key,payload) \
                         VALUES ";

pub const WRITE_SIDE_RECORDS_END: &'static str = " ON CONFLICT(tenant_id,queue_id,key) DO UPDATE SET \
                         payload=excluded.payload";

pub const ADVANCE_FENCE: &'static str = "INSERT INTO fireweed_instance_fences (tenant_id,queue_id,instance_key,fence) \
                 VALUES (?1,?2,?3,?4) \
                 ON CONFLICT(tenant_id,queue_id,instance_key) DO UPDATE SET fence=excluded.fence";

pub const SELECT_ITEM_EXISTS: &'static str = "SELECT EXISTS(SELECT 1 FROM fireweed_items \
                             WHERE tenant_id=?1 AND queue_id=?2 AND item_id=?3)";

pub const SELECT_LEASE: &'static str = "SELECT lease_token_hash,lease_expires_at,worker_id,fenced FROM fireweed_items \
                                     WHERE tenant_id=?1 AND queue_id=?2 AND item_id=?3";

pub const REPLACE_ITEM: &'static str = "UPDATE fireweed_items SET lifecycle_state=?4,priority=?5,priority_sort=?6,not_before=?7,\
                             eligible_since=?8,payload=?9,fields=?10,metadata=?11,entity_document=?12,index_fields=?13,\
                             lease_token_hash=?14,lease_expires_at=?15,worker_id=?16,fenced=?17,item_version=?18,\
                             terminal_at=?19,terminal_command_epoch=?20,updated_at=?21,last_command_sequence=?22 \
                             WHERE tenant_id=?1 AND queue_id=?2 AND item_id=?3 AND item_version=?23";

pub const INSERT_REPLACED_GATE: &'static str = "INSERT INTO fireweed_item_gates(tenant_id,queue_id,item_id,gate_key) VALUES(?1,?2,?3,?4)";

/// How many gates one statement blocks.
pub const GATE_BATCH: usize = 500;

/// How many side records one statement writes.
pub const SIDE_RECORD_BATCH: usize = 375;

/// A gate as its queue's row.
pub open spec fn queue_gate(q: QueueV) -> spec_fn(Seq<char>) -> Seq<CellV> {
    |k: Seq<char>| own(q).push(CellV::Text(k))
}

fn gate_rows(shard: &QueueKey, keys: &Vec<String>) -> (r: Vec<Params>)
    ensures
        params_v(r@) == texts(keys@).map_values(queue_gate(shard@)),
{
    let ghost all = texts(keys@).map_values(queue_gate(shard@));
    let mut rows: Vec<Params> = Vec::new();
    let mut i: usize = 0;
    assert(params_v(rows@) =~= all.take(0));
    while i < keys.len()
        invariant
            i <= keys@.len(),
            all == texts(keys@).map_values(queue_gate(shard@)),
            params_v(rows@) == all.take(i as int),
        decreases keys@.len() - i,
    {
        let ghost before = rows@;
        let p = own_params(shard).text(keys[i].as_str());
        rows.push(p);
        proof {
            assert(texts(keys@)[i as int] == keys@[i as int]@);
            assert(all[i as int] == p@);
            assert(params_v(rows@) =~= params_v(before).push(p@));
            assert(all.take(i as int + 1) =~= all.take(i as int).push(all[i as int]));
        }
        i = i + 1;
    }
    assert(all.take(i as int) =~= all);
    rows
}

/// Gates of a queue are blocked or opened.
pub open spec fn moves_gates(q: QueueV, keys: Seq<Seq<char>>, blocked: bool) -> Script<
    Result<(), ErrorV>,
> {
    if blocked {
        rows_in(
            BLOCK_GATES@,
            "(?,?,?)"@,
            BLOCK_GATES_END@,
            keys.map_values(queue_gate(q)),
            Seq::empty(),
            GATE_BATCH as nat,
        )
    } else {
        runs_in(OPEN_GATES@, own(q), keys, RELATIONAL_BATCH as nat)
    }
}

/// Gates of a queue are blocked or opened, and the claim scan starts over.
pub open spec fn sets_gates(m: MemoryV, q: QueueV, keys: Seq<Seq<char>>, blocked: bool) -> Script<
    Kept<()>,
> {
    hold(
        hint_reset(m, q),
        moves_gates(q, keys, blocked),
        |u: ()| Script::Done((hint_reset(m, q), Ok::<(), ErrorV>(()))),
    )
}

/// Blocks or opens gates of a queue.
pub fn apply_set_gates_sql<T: RelTx>(
    tx: &mut RelSession<T>,
    memory: &mut DriverMemory,
    shard: &QueueKey,
    c: &GateChange,
) -> (r: EngineResult<()>)
    ensures
        held(
            old(tx).trace(),
            final(tx).trace(),
            sets_gates(old(memory)@, shard@, texts(c.gate_keys@), c.blocked),
            (final(memory)@, outcome(r)),
        ),
{
    proof {
        lemma_start(tx.trace(), sets_gates(memory@, shard@, texts(c.gate_keys@), c.blocked));
    }
    reset_claim_scan_hint(memory, shard);
    if c.blocked {
        run_rows(
            tx,
            BLOCK_GATES,
            "(?,?,?)",
            BLOCK_GATES_END,
            &gate_rows(shard, &c.gate_keys),
            &Params::new(),
            GATE_BATCH,
        )
    } else {
        run_listed(tx, OPEN_GATES, &own_params(shard), &c.gate_keys, RELATIONAL_BATCH)
    }
}

/// A side record as a row.
pub open spec fn side_cells(q: QueueV) -> spec_fn(SideRecord) -> Seq<CellV> {
    |s: SideRecord|
        own(q).push(CellV::Blob(s.key@)).push(CellV::Blob(bytes_of(s.payload)))
}

fn side_rows(shard: &QueueKey, records: &Vec<SideRecord>) -> (r: Vec<Params>)
    ensures
        params_v(r@) == records@.map_values(side_cells(shard@)),
{
    let ghost all = records@.map_values(side_cells(shard@));
    let mut rows: Vec<Params> = Vec::new();
    let mut i: usize = 0;
    assert(params_v(rows@) =~= all.take(0));
    while i < records.len()
        invariant
            i <= records@.len(),
            all == records@.map_values(side_cells(shard@)),
            params_v(rows@) == all.take(i as int),
        decreases records@.len() - i,
    {
        let ghost before = rows@;
        let payload = slice_bytes(bytes_slice(&records[i].payload));
        let p = own_params(shard).blob(&records[i].key).blob(&payload);
        rows.push(p);
        proof {
            assert(all[i as int] == p@);
            assert(params_v(rows@) =~= params_v(before).push(p@));
            assert(all.take(i as int + 1) =~= all.take(i as int).push(all[i as int]));
        }
        i = i + 1;
    }
    assert(all.take(i as int) =~= all);
    rows
}

/// Side records are written; one under a key that is taken replaces what was there.
pub open spec fn writes_side(q: QueueV, records: Seq<SideRecord>) -> Script<Result<(), ErrorV>> {
    rows_in(
        WRITE_SIDE_RECORDS@,
        GATE_ROW@,
        WRITE_SIDE_RECORDS_END@,
        records.map_values(side_cells(q)),
        Seq::empty(),
        SIDE_RECORD_BATCH as nat,
    )
}

/// Writes side records.
pub fn apply_side_records_sql<T: RelTx>(
    tx: &mut RelSession<T>,
    shard: &QueueKey,
    records: &Vec<SideRecord>,
) -> (r: EngineResult<()>)
    ensures
        held(old(tx).trace(), final(tx).trace(), writes_side(shard@, records@), outcome(r)),
{
    proof {
        lemma_start(tx.trace(), writes_side(shard@, records@));
    }
    run_rows(
        tx,
        WRITE_SIDE_RECORDS,
        GATE_ROW,
        WRITE_SIDE_RECORDS_END,
        &side_rows(shard, records),
        &Params::new(),
        SIDE_RECORD_BATCH,
    )
}

/// The lease columns of an item.
pub struct LeaseRow {
    pub hash: Option<Vec<u8>>,
    pub expires_at: Option<i64>,
    pub worker_id: Option<String>,
    pub fenced: i64,
}

pub ghost struct LeaseV {
    pub hash: Option<Seq<u8>>,
    pub expires_at: Option<i64>,
    pub worker_id: Option<Seq<char>>,
    pub fenced: i64,
}

impl FromRow for LeaseRow {
    type V = LeaseV;

    open spec fn content(&self) -> LeaseV {
        LeaseV {
            hash: bytes_opt(self.hash),
            expires_at: self.expires_at,
            worker_id: opt_text(self.worker_id),
            fenced: self.fenced,
        }
    }

    open spec fn row_reading(row: Seq<CellV>) -> Result<LeaseV, ErrorV> {
        match (column::<Option<Vec<u8>>>(row, 0), column::<Option<i64>>(row, 1)) {
            (Err(e), _) => Err(e),
            (_, Err(e)) => Err(e),
            (Ok(hash), Ok(expires_at)) => match (
                column::<Option<String>>(row, 2),
                column::<i64>(row, 3),
            ) {
                (Err(e), _) => Err(e),
                (_, Err(e)) => Err(e),
                (Ok(worker_id), Ok(fenced)) => Ok(
                    LeaseV { hash, expires_at, worker_id, fenced },
                ),
            },
        }
    }

    fn from_row(row: &RelRow) -> (r: EngineResult<LeaseRow>) {
        let hash = match row.get::<Option<Vec<u8>>>(0) {
            Err(e) => return Err(e),
            Ok(v) => v,
        };
        let expires_at = match row.get::<Option<i64>>(1) {
            Err(e) => return Err(e),
            Ok(v) => v,
        };
        let worker_id = match row.get::<Option<String>>(2) {
            Err(e) => return Err(e),
            Ok(v) => v,
        };
        let fenced = match row.get::<i64>(3) {
            Err(e) => return Err(e),
            Ok(v) => v,
        };
        Ok(LeaseRow { hash, expires_at, worker_id, fenced })
    }
}

/// The lease that an item has after a mutation: none where it is invalidated, else the one it has.
pub open spec fn asks_lease(q: QueueV, id: Seq<char>, invalidate: bool) -> Script<
    Result<LeaseV, ErrorV>,
> {
    if invalidate {
        Script::Done(Ok(LeaseV { hash: None, expires_at: None, worker_id: None, fenced: 0 }))
    } else {
        chain(
            one(SELECT_LEASE@, own(q).push(CellV::Text(id))),
            |row: Seq<CellV>| Script::Done(LeaseRow::row_reading(row)),
        )
    }
}

pub open spec fn lease_outcome(r: EngineResult<LeaseRow>) -> Result<LeaseV, ErrorV> {
    match r {
        Ok(x) => Ok(x.content()),
        Err(e) => Err(e@),
    }
}

fn find_lease<T: RelTx>(tx: &mut RelSession<T>, shard: &QueueKey, id: &str, invalidate: bool) -> (r:
    EngineResult<LeaseRow>)
    ensures
        held(
            old(tx).trace(),
            final(tx).trace(),
            asks_lease(shard@, id@, invalidate),
            lease_outcome(r),
        ),
{
    proof {
        lemma_start(tx.trace(), asks_lease(shard@, id@, invalidate));
    }
    if invalidate {
        return Ok(LeaseRow { hash: None, expires_at: None, worker_id: None, fenced: 0 });
    }
    match query_row(tx, SELECT_LEASE, own_params(shard).text(id)) {
        Err(e) => Err(e),
        Ok(row) => LeaseRow::from_row(&row),
    }
}

/// The texts of an item's values.
pub ghost struct WrittenV {
    pub priority: Option<Seq<char>>,
    pub lease: LeaseV,
    pub fields: Seq<char>,
    pub metadata: Seq<char>,
    pub document: Option<Seq<char>>,
    pub index: Option<Seq<u8>>,
}

struct Written {
    priority: Option<String>,
    lease: LeaseRow,
    fields: String,
    metadata: String,
    document: Option<String>,
    index: Option<Vec<u8>>,
}

impl Written {
    spec fn view(&self) -> WrittenV {
        WrittenV {
            priority: opt_text(self.priority),
            lease: self.lease.content(),
            fields: self.fields@,
            metadata: self.metadata@,
            document: opt_text(self.document),
            index: bytes_opt(self.index),
        }
    }
}

/// The values of a mutation are put into their stored form.
pub open spec fn writes_down(known: bool, q: QueueV, id: Seq<char>, v: ResolvedItemValues) -> Script<
    Result<WrittenV, ErrorV>,
> {
    chain(
        writes_priority(opt_priority(v.priority)),
        |priority: Option<Seq<char>>|
            if !known {
                Script::Done(Err::<WrittenV, ErrorV>(ErrorV::NotFound))
            } else {
                chain(
                    asks_lease(q, id, v.invalidate_lease),
                    |lease: LeaseV|
                        match fields_text(field_bytes(*v.fields)) {
                            Err(e) => Script::Done(Err::<WrittenV, ErrorV>(e)),
                            Ok(fields) => chain(
                                write_metadata(metadata_of(*v.metadata)),
                                |metadata: Seq<char>|
                                    chain(
                                        writes_document(opt_doc(v.entity_document)),
                                        |document: Option<Seq<char>>|
                                            match stored_fields(*v.index_fields) {
                                                Err(e) => Script::Done(Err::<WrittenV, ErrorV>(e)),
                                                Ok(index) => Script::Done(
                                                    Ok::<WrittenV, ErrorV>(
                                                        WrittenV {
                                                            priority,
                                                            lease,
                                                            fields,
                                                            metadata,
                                                            document,
                                                            index,
                                                        },
                                                    ),
                                                ),
                                            },
                                    ),
                            ),
                        },
                )
            },
    )
}

fn write_down<T: RelTx + RelCodec>(
    tx: &mut RelSession<T>,
    known: bool,
    shard: &QueueKey,
    id: &str,
    v: &ResolvedItemValues,
) -> (r: EngineResult<Written>)
    ensures
        held(
            old(tx).trace(),
            final(tx).trace(),
            writes_down(known, shard@, id@, *v),
            (match r {
                Ok(w) => Ok(w@),
                Err(e) => Err(e@),
            }),
        ),
        r is Ok ==> known,
{
    proof {
        lemma_start(tx.trace(), writes_down(known, shard@, id@, *v));
    }
    let priority = match priority_to_json(tx, &v.priority) {
        Err(e) => return Err(e),
        Ok(t) => t,
    };
    if !known {
        return Err(EngineError::NotFound);
    }
    let lease = match find_lease(tx, shard, id, v.invalidate_lease) {
        Err(e) => return Err(e),
        Ok(x) => x,
    };
    let fields = match fields_to_json(&v.fields) {
        Err(e) => return Err(e),
        Ok(t) => t,
    };
    let metadata = match tx.metadata_text(&v.metadata) {
        Err(e) => return Err(e),
        Ok(t) => t,
    };
    let document = match entity_to_json(tx, &v.entity_document) {
        Err(e) => return Err(e),
        Ok(t) => t,
    };
    let index = match encode_index_fields_blob(&v.index_fields) {
        Err(e) => return Err(e),
        Ok(b) => b,
    };
    Ok(Written { priority, lease, fields, metadata, document, index })
}

/// A time or an epoch that only a terminal state has.
pub open spec fn when_terminal(s: ItemState, v: i64) -> Option<i64> {
    if s.terminal() {
        Some(v)
    } else {
        None
    }
}

/// The version before one, none before the first.
pub open spec fn version_before(v: u64) -> u64 {
    if v == 0 {
        0
    } else {
        (v - 1) as u64
    }
}

/// The parameters of a replacement of an item's values.
pub open spec fn replaced_cells(
    q: QueueV,
    id: Seq<char>,
    v: ResolvedItemValues,
    sort: Seq<u8>,
    w: WrittenV,
    epoch: u64,
    seq: u64,
    now: i64,
) -> Seq<CellV> {
    own(q).push(CellV::Text(id)).push(CellV::Text(state_name(v.state))).push(
        text_cell(w.priority),
    ).push(CellV::Blob(sort)).push(int_cell(opt_nanos(v.not_before))).push(
        CellV::Integer(nanos(v.eligible_since)),
    ).push(blob_cell(opt_bytes(v.payload))).push(CellV::Text(w.fields)).push(
        CellV::Text(w.metadata),
    ).push(text_cell(w.document)).push(blob_cell(w.index)).push(blob_cell(w.lease.hash)).push(
        int_cell(w.lease.expires_at),
    ).push(text_cell(w.lease.worker_id)).push(CellV::Integer(w.lease.fenced)).push(
        CellV::Integer(v.item_version as i64),
    ).push(int_cell(when_terminal(v.state, now))).push(
        int_cell(when_terminal(v.state, epoch as i64)),
    ).push(CellV::Integer(now)).push(CellV::Integer(seq as i64)).push(
        CellV::Integer(version_before(v.item_version) as i64),
    )
}

fn replaced_params(
    shard: &QueueKey,
    id: &str,
    v: &ResolvedItemValues,
    sort: &Vec<u8>,
    w: &Written,
    epoch: u64,
    seq: u64,
    now_n: i64,
) -> (r: Params)
    ensures
        r@ == replaced_cells(shard@, id@, *v, sort@, w@, epoch, seq, now_n),
{
    let payload = buffer_bytes(&v.payload);
    let terminal = v.state.is_terminal();
    let terminal_at = if terminal {
        Some(now_n)
    } else {
        None
    };
    let terminal_epoch = if terminal {
        Some(epoch as i64)
    } else {
        None
    };
    let before: u64 = if v.item_version == 0 {
        0
    } else {
        v.item_version - 1
    };
    let head = own_params(shard).text(id).text(state_str(v.state)).maybe_text(&w.priority).blob(
        sort,
    ).maybe_int(ts_nanos_opt(v.not_before)).number(ts_nanos(v.eligible_since)).maybe_blob(
        &payload,
    ).text(w.fields.as_str()).text(w.metadata.as_str()).maybe_text(&w.document).maybe_blob(
        &w.index,
    );
    head.maybe_blob(&w.lease.hash).maybe_int(w.lease.expires_at).maybe_text(
        &w.lease.worker_id,
    ).number(w.lease.fenced).number(v.item_version as i64).maybe_int(terminal_at).maybe_int(
        terminal_epoch,
    ).number(now_n).number(seq as i64).number(before as i64)
}

/// The gates and index rows of a mutated item are replaced.
pub open spec fn follows_mutation(
    q: QueueV,
    specs: Seq<QueueIndexV>,
    id: Seq<char>,
    v: ResolvedItemValues,
) -> Script<Result<(), ErrorV>> {
    chain(
        regates(INSERT_REPLACED_GATE@, q, id, texts(v.gate_keys@)),
        |u: ()|
            if specs.len() == 0 {
                Script::Done(Ok::<(), ErrorV>(()))
            } else {
                reindexes(q, specs, id, native_keys(specs.len(), *v.index_fields))
            },
    )
}

fn follow_mutation<T: RelTx>(
    tx: &mut RelSession<T>,
    shard: &QueueKey,
    typed_indexes: &Vec<QueueIndex>,
    id: &String,
    v: &ResolvedItemValues,
) -> (r: EngineResult<()>)
    ensures
        held(
            old(tx).trace(),
            final(tx).trace(),
            follows_mutation(shard@, typed_specs_v(typed_indexes@), id@, *v),
            outcome(r),
        ),
{
    proof {
        lemma_start(
            tx.trace(),
            follows_mutation(shard@, typed_specs_v(typed_indexes@), id@, *v),
        );
        assert(typed_specs_v(typed_indexes@).len() == typed_indexes@.len());
    }
    match replace_gates(tx, INSERT_REPLACED_GATE, shard, id.as_str(), &v.gate_keys) {
        Err(e) => return Err(e),
        Ok(_) => {},
    }
    if typed_indexes.len() == 0 {
        return Ok(());
    }
    reindex(tx, shard, typed_indexes, id, &v.index_fields)
}

/// All values of an item are replaced. The item must stand at the version before; its lease may be
/// dropped with it.
pub open spec fn replaces_values(
    m: MemoryV,
    queues: Map<QueueV, QueueDefinition>,
    q: QueueV,
    epoch: u64,
    seq: u64,
    now: i64,
    item: ItemId,
    v: ResolvedItemValues,
) -> Script<Kept<()>> {
    let id = numeral(item as nat);
    hold(
        m,
        writes_down(queues.contains_key(q), q, id, v),
        |w: WrittenV|
            hold(
                m,
                run(
                    REPLACE_ITEM@,
                    replaced_cells(
                        q,
                        id,
                        v,
                        sort_column(opt_priority(v.priority), queues[q].priority_model),
                        w,
                        epoch,
                        seq,
                        now,
                    ),
                ),
                |changed: usize|
                    if changed != 1 {
                        Script::Done((m, Err::<(), ErrorV>(ErrorV::Conflict)))
                    } else {
                        hold(
                            m,
                            follows_mutation(q, typed_of(queues, q), id, v),
                            |u: ()|
                                Script::Done(
                                    (
                                        if v.invalidate_lease {
                                            noted(m, TokenV::Clear(q, item))
                                        } else {
                                            m
                                        },
                                        Ok::<(), ErrorV>(()),
                                    ),
                                ),
                        )
                    },
            ),
    )
}

fn replace_values<T: RelTx + RelCodec>(
    tx: &mut RelSession<T>,
    queues: &Queues,
    memory: &mut DriverMemory,
    shard: &QueueKey,
    epoch: u64,
    seq: u64,
    now_n: i64,
    item: ItemId,
    v: &ResolvedItemValues,
) -> (r: EngineResult<()>)
    ensures
        held(
            old(tx).trace(),
            final(tx).trace(),
            replaces_values(old(memory)@, queues@, shard@, epoch, seq, now_n, item, *v),
            (final(memory)@, outcome(r)),
        ),
{
    proof {
        lemma_start(
            tx.trace(),
            replaces_values(memory@, queues@, shard@, epoch, seq, now_n, item, *v),
        );
    }
    let id = decimal(item);
    let found = queues.get(shard);
    let w = match write_down(tx, found.is_some(), shard, id.as_str(), v) {
        Err(e) => return Err(e),
        Ok(w) => w,
    };
    let definition = match found {
        None => return Err(EngineError::NotFound),
        Some(d) => d,
    };
    let sort = elig_sort(&v.priority, &definition.priority_model);
    let params = replaced_params(shard, id.as_str(), v, &sort, &w, epoch, seq, now_n);
    let changed = match rel_exec(tx, REPLACE_ITEM, params) {
        Err(e) => return Err(e),
        Ok(n) => n,
    };
    if changed != 1 {
        return Err(EngineError::Conflict);
    }
    match follow_mutation(tx, shard, &definition.typed_indexes, &id, v) {
        Err(e) => return Err(e),
        Ok(_) => {},
    }
    if v.invalidate_lease {
        memory.note(TokenOp::Clear(shard.duplicate(), item));
    }
    Ok(())
}

/// What a mutation does to one item. An item that is to be removed must be there.
#[verifier::opaque]
pub open spec fn mutation_step(
    queues: Map<QueueV, QueueDefinition>,
    q: QueueV,
    epoch: u64,
    seq: u64,
    now: i64,
) -> spec_fn(MemoryV, ResolvedItemMutation) -> Script<Kept<()>> {
    |m: MemoryV, i: ResolvedItemMutation|
        match i.action {
            ResolvedItemMutationAction::Purge => hold(
                m,
                one(SELECT_ITEM_EXISTS@, own(q).push(CellV::Text(numeral(i.item_id as nat)))),
                |row: Seq<CellV>|
                    match column::<bool>(row, 0) {
                        Err(e) => Script::Done((m, Err::<(), ErrorV>(e))),
                        Ok(there) => if there {
                            purges(m, queues, q, now, Seq::<ItemId>::empty().push(i.item_id))
                        } else {
                            Script::Done((m, Err::<(), ErrorV>(ErrorV::Conflict)))
                        },
                    },
            ),
            ResolvedItemMutationAction::Replace(v) => replaces_values(
                m,
                queues,
                q,
                epoch,
                seq,
                now,
                i.item_id,
                v,
            ),
        }
}

fn mutate_one<T: RelTx + RelCodec>(
    tx: &mut RelSession<T>,
    queues: &Queues,
    memory: &mut DriverMemory,
    shard: &QueueKey,
    epoch: u64,
    seq: u64,
    now: UtcTimestamp,
    item: &ResolvedItemMutation,
) -> (r: EngineResult<()>)
    ensures
        held(
            old(tx).trace(),
            final(tx).trace(),
            mutation_step(queues@, shard@, epoch, seq, nanos(now))(old(memory)@, *item),
            (final(memory)@, outcome(r)),
        ),
{
    proof {
        reveal(mutation_step);
        lemma_start(
            tx.trace(),
            mutation_step(queues@, shard@, epoch, seq, nanos(now))(memory@, *item),
        );
    }
    match &item.action {
        ResolvedItemMutationAction::Purge => {
            let row = match query_row(
                tx,
                SELECT_ITEM_EXISTS,
                own_params(shard).text(decimal(item.item_id).as_str()),
            ) {
                Err(e) => return Err(e),
                Ok(row) => row,
            };
            match row.get::<bool>(0) {
                Err(e) => return Err(e),
                Ok(there) => {
                    if !there {
                        return Err(EngineError::Conflict);
                    }
                },
            }
            let mut ids: Vec<ItemId> = Vec::new();
            ids.push(item.item_id);
            assert(ids@ =~= Seq::<ItemId>::empty().push(item.item_id));
            apply_purge_sql(tx, queues, memory, shard, now, &ids)
        },
        ResolvedItemMutationAction::Replace(v) => replace_values(
            tx,
            queues,
            memory,
            shard,
            epoch,
            seq,
            ts_nanos(now),
            item.item_id,
            v,
        ),
    }
}

fn mutate_each<T: RelTx + RelCodec>(
    tx: &mut RelSession<T>,
    queues: &Queues,
    memory: &mut DriverMemory,
    shard: &QueueKey,
    epoch: u64,
    seq: u64,
    now: UtcTimestamp,
    items: &Vec<ResolvedItemMutation>,
) -> (r: EngineResult<()>)
    ensures
        held(
            old(tx).trace(),
            final(tx).trace(),
            each_kept(
                old(memory)@,
                items@,
                mutation_step(queues@, shard@, epoch, seq, nanos(now)),
            ),
            (final(memory)@, outcome(r)),
        ),
{
    let ghost all = items@;
    let ghost f = mutation_step(queues@, shard@, epoch, seq, nanos(now));
    let ghost m = memory@;
    let ghost prog = each_kept(m, all, f);
    let ghost start = tx.trace();
    let mut i: usize = 0;
    proof {
        lemma_start(start, prog);
        assert(all.skip(0) =~= all);
    }
    while i < items.len()
        invariant
            i <= items@.len(),
            all == items@,
            start == old(tx).trace(),
            m == old(memory)@,
            f == mutation_step(queues@, shard@, epoch, seq, nanos(now)),
            prog == each_kept(m, all, f),
            reached(start, tx.trace(), prog, each_kept(memory@, all.skip(i as int), f)),
        decreases items@.len() - i,
    {
        proof {
            assert(all.skip(i as int)[0] == items@[i as int]);
            assert(all.skip(i as int).drop_first() =~= all.skip(i as int + 1));
        }
        match mutate_one(tx, queues, memory, shard, epoch, seq, now, &items[i]) {
            Err(e) => return Err(e),
            Ok(_) => {},
        }
        i = i + 1;
    }
    assert(all.skip(i as int) =~= Seq::<ResolvedItemMutation>::empty());
    Ok(())
}

pub open spec fn gate_step(q: QueueV) -> spec_fn(MemoryV, GateChange) -> Script<Kept<()>> {
    |m: MemoryV, c: GateChange| sets_gates(m, q, texts(c.gate_keys@), c.blocked)
}

fn change_gates<T: RelTx>(
    tx: &mut RelSession<T>,
    memory: &mut DriverMemory,
    shard: &QueueKey,
    changes: &Vec<GateChange>,
) -> (r: EngineResult<()>)
    ensures
        held(
            old(tx).trace(),
            final(tx).trace(),
            each_kept(old(memory)@, changes@, gate_step(shard@)),
            (final(memory)@, outcome(r)),
        ),
{
    let ghost all = changes@;
    let ghost f = gate_step(shard@);
    let ghost m = memory@;
    let ghost prog = each_kept(m, all, f);
    let ghost start = tx.trace();
    let mut i: usize = 0;
    proof {
        lemma_start(start, prog);
        assert(all.skip(0) =~= all);
    }
    while i < changes.len()
        invariant
            i <= changes@.len(),
            all == changes@,
            start == old(tx).trace(),
            m == old(memory)@,
            f == gate_step(shard@),
            prog == each_kept(m, all, f),
            reached(start, tx.trace(), prog, each_kept(memory@, all.skip(i as int), f)),
        decreases changes@.len() - i,
    {
        proof {
            assert(all.skip(i as int)[0] == changes@[i as int]);
            assert(all.skip(i as int).drop_first() =~= all.skip(i as int + 1));
        }
        match apply_set_gates_sql(tx, memory, shard, &changes[i]) {
            Err(e) => return Err(e),
            Ok(_) => {},
        }
        i = i + 1;
    }
    assert(all.skip(i as int) =~= Seq::<GateChange>::empty());
    Ok(())
}

/// The items that a mutation names.
pub open spec fn mutated_ids(items: Seq<ResolvedItemMutation>) -> Seq<ItemId> {
    items.map_values(|i: ResolvedItemMutation| i.item_id)
}

fn ids_of_mutations(items: &Vec<ResolvedItemMutation>) -> (r: Vec<ItemId>)
    ensures
        r@ == mutated_ids(items@),
{
    let ghost all = mutated_ids(items@);
    let mut out: Vec<ItemId> = Vec::new();
    let mut i: usize = 0;
    while i < items.len()
        invariant
            i <= items@.len(),
            all == mutated_ids(items@),
            out@ == all.take(i as int),
        decreases items@.len() - i,
    {
        out.push(items[i].item_id);
        assert(all.take(i as int + 1) =~= all.take(i as int).push(all[i as int]));
        i = i + 1;
    }
    assert(all.take(i as int) =~= all);
    out
}

/// Items are mutated in order, then gates; the groups that the items were in before are summarized
/// anew.
pub open spec fn mutates(
    m: MemoryV,
    queues: Map<QueueV, QueueDefinition>,
    q: QueueV,
    epoch: u64,
    seq: u64,
    now: i64,
    c: MutateItemsCommand,
) -> Script<Kept<()>> {
    let n = hint_reset(m, q);
    hold(
        n,
        asks_groups(q, mutated_ids(c.items@)),
        |groups: Seq<Seq<char>>|
            pass(
                each_kept(n, c.items@, mutation_step(queues, q, epoch, seq, now)),
                |o: MemoryV, u: ()|
                    pass(
                        each_kept(o, c.gate_changes@, gate_step(q)),
                        |p: MemoryV, v: ()|
                            hold(
                                p,
                                refreshes(q, groups, now),
                                |w: ()| Script::Done((p, Ok::<(), ErrorV>(()))),
                            ),
                    ),
            ),
    )
}

/// Mutates items and gates.
pub fn apply_mutate_sql<T: RelTx + RelCodec>(
    tx: &mut RelSession<T>,
    queues: &Queues,
    memory: &mut DriverMemory,
    shard: &QueueKey,
    position: &CommandPosition,
    seq: u64,
    now: UtcTimestamp,
    c: &MutateItemsCommand,
) -> (r: EngineResult<()>)
    ensures
        held(
            old(tx).trace(),
            final(tx).trace(),
            mutates(
                old(memory)@,
                queues@,
                shard@,
                position.backend_epoch,
                seq,
                nanos(now),
                *c,
            ),
            (final(memory)@, outcome(r)),
        ),
{
    proof {
        lemma_start(
            tx.trace(),
            mutates(memory@, queues@, shard@, position.backend_epoch, seq, nanos(now), *c),
        );
    }
    reset_claim_scan_hint(memory, shard);
    let groups = match groups_of(tx, shard, &ids_of_mutations(&c.items)) {
        Err(e) => return Err(e),
        Ok(v) => v,
    };
    match mutate_each(
        tx,
        queues,
        memory,
        shard,
        position.backend_epoch,
        seq,
        now,
        &c.items,
    ) {
        Err(e) => return Err(e),
        Ok(_) => {},
    }
    match change_gates(tx, memory, shard, &c.gate_changes) {
        Err(e) => return Err(e),
        Ok(_) => {},
    }
    refresh_group_summaries(tx, shard, &groups, now)
}

} // verus!
