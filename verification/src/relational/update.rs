//! Changes of live items' values, in the store.

use crate::apply::edit_fields;
use crate::model::edited_fields;
use crate::relational::codec::{buffer_bytes, elig_sort, fields_from_json, fields_of_text, fields_text, fields_to_json, nanos, opt_nanos, sort_column, ts_nanos, ts_nanos_opt};
use crate::relational::cohorts::Queues;
use crate::relational::exec::{RelCodec, RelSession, RelTx, first, query_optional, rel_done, text_outcome};
use crate::relational::finalize::rearmed_since;
use crate::relational::indexes::{NamedKey, check_typed_unique_conflicts, checks_keys, delete_typed_index_rows, drops_index_rows, insert_typed_index_rows, inserts_rows, native_keys, rows_of_keys, typed_index_keys_for_native};
use crate::relational::insert::{encode_index_fields_blob, opt_text_outcome, priority_to_json, stored_fields, typed_of, writes_priority};
use crate::relational::lists::FromRow;
use crate::relational::memory::{DriverMemory, Kept, MemoryV, hint_reset, hold};
use crate::relational::query::{own, own_params, reset_claim_scan_hint};
use crate::relational::script::{Script, chain, done, each, group_talk, held, lemma_start, reached, read_priority, write_document, write_metadata};
use crate::relational::summary::{asks_groups, groups_of, refresh_group_summaries, refreshes};
use crate::relational::value::{CellV, RelRow, blob_cell, bytes_opt, column, int_cell, text_cell};
use crate::sql::async_projection::UPDATE_ENTITY_DOCUMENT;
use crate::text::{clone_bytes, clone_opt_text, decimal, numeral, opt_text, texts};
use crate::types::{EngineError, EngineResult, Entity, ErrorV, IndexFields, ItemId, NotBeforeUpdate, PayloadUpdate, PriorityUpdate, PriorityV, PriorityValue, QueueDefinition, QueueIndex, QueueIndexV, QueueKey, QueueV, UpdateFieldsCommand, UtcTimestamp, field_bytes, metadata_of, opt_bytes, opt_priority, outcome, typed_specs_v};
use vstd::prelude::*;
use vstd::string::*;

verus! {

broadcast use group_talk;

/// How many rows one statement of a batch update carries.
pub const UPDATE_FIELDS_BATCH: usize = 100;

pub const SELECT_LIVE_ITEM: &'static str = "SELECT fields,lifecycle_state,priority,not_before,eligible_since,payload,metadata FROM fireweed_items \
                     WHERE tenant_id=?1 AND queue_id=?2 AND item_id=?3 \
                     AND lifecycle_state IN ('Pending','Leased') AND superseded=0 AND fenced=0";

pub const UPDATE_LIVE_ITEM: &'static str = "UPDATE fireweed_items SET fields=?4,payload=?5,metadata=?6,priority=?7,priority_sort=?8, \
                     not_before=?9,eligible_since=?10,item_version=item_version+1,updated_at=?11,last_command_sequence=?12 \
                     WHERE tenant_id=?1 AND queue_id=?2 AND item_id=?3 \
                     AND lifecycle_state IN ('Pending','Leased') AND superseded=0 AND fenced=0";

pub const DELETE_GATES_OF_ITEM: &'static str = "DELETE FROM fireweed_item_gates WHERE tenant_id=?1 AND queue_id=?2 AND item_id=?3";

pub const INSERT_GATE_IF_ABSENT: &'static str = "INSERT OR IGNORE INTO fireweed_item_gates(tenant_id,queue_id,item_id,gate_key) VALUES(?1,?2,?3,?4)";

pub const SELECT_BY_CLIENT_KEY: &'static str = "SELECT item_id,client_item_key FROM fireweed_items \
             WHERE tenant_id=? AND queue_id=? AND client_item_key IN";

pub const NOT_SUPERSEDED: &'static str = " \
             AND superseded=0";

pub const SELECT_LIVE_WITH_PAYLOAD: &'static str = "SELECT item_id,fields,lifecycle_state,priority,not_before,eligible_since,payload,metadata,\
                        group_key,created_at,created_seq,item_version \
                 FROM fireweed_items WHERE tenant_id=? AND queue_id=? AND item_id IN";

pub const SELECT_LIVE_WITHOUT_PAYLOAD: &'static str = "SELECT item_id,fields,lifecycle_state,priority,not_before,eligible_since,NULL,metadata,\
                        group_key,created_at,created_seq,item_version \
                 FROM fireweed_items WHERE tenant_id=? AND queue_id=? AND item_id IN";

pub const LIVE_ONLY: &'static str = " \
                 AND lifecycle_state IN ('Pending','Leased') AND superseded=0 AND fenced=0";

pub const UPDATE_WITH_PAYLOAD: &'static str = "WITH incoming(item_id,fields,payload,metadata,priority,priority_sort,not_before,eligible_since) \
                     AS (VALUES ";

pub const ROW_WITH_PAYLOAD: &'static str = "(?,?,?,?,?,?,?,?)";

pub const UPDATE_WITH_PAYLOAD_END: &'static str = ") \
                     UPDATE fireweed_items SET fields=incoming.fields,payload=incoming.payload,\
                     metadata=incoming.metadata,priority=incoming.priority,priority_sort=incoming.priority_sort,\
                     not_before=incoming.not_before,eligible_since=incoming.eligible_since,\
                     item_version=item_version+1,updated_at=?,last_command_sequence=? \
                     FROM incoming WHERE tenant_id=? AND queue_id=? AND fireweed_items.item_id=incoming.item_id \
                     AND lifecycle_state IN ('Pending','Leased') AND superseded=0 AND fenced=0";

pub const UPDATE_WITHOUT_PAYLOAD: &'static str = "WITH incoming(item_id,fields,metadata,priority,priority_sort,not_before,eligible_since) \
                     AS (VALUES ";

pub const ROW_WITHOUT_PAYLOAD: &'static str = "(?,?,?,?,?,?,?)";

pub const UPDATE_WITHOUT_PAYLOAD_END: &'static str = ") \
                     UPDATE fireweed_items SET fields=incoming.fields,\
                     metadata=incoming.metadata,priority=incoming.priority,priority_sort=incoming.priority_sort,\
                     not_before=incoming.not_before,eligible_since=incoming.eligible_since,\
                     item_version=item_version+1,updated_at=?,last_command_sequence=? \
                     FROM incoming WHERE tenant_id=? AND queue_id=? AND fireweed_items.item_id=incoming.item_id \
                     AND lifecycle_state IN ('Pending','Leased') AND superseded=0 AND fenced=0";

pub const INSERT_UPDATED_GATES: &'static str = "INSERT INTO fireweed_item_gates(tenant_id,queue_id,item_id,gate_key) VALUES ";

pub const GATE_ROW: &'static str = "(?,?,?,?)";

pub const INSERT_UPDATED_GATES_END: &'static str = " \
                 ON CONFLICT(tenant_id,queue_id,item_id,gate_key) DO NOTHING";

/// The stored values of a live item that an update may change.
pub struct CurrentValues {
    pub fields: String,
    pub priority: Option<String>,
    pub not_before: Option<i64>,
    pub eligible_since: i64,
    pub payload: Option<Vec<u8>>,
    pub metadata: String,
}

pub ghost struct CurrentV {
    pub fields: Seq<char>,
    pub priority: Option<Seq<char>>,
    pub not_before: Option<i64>,
    pub eligible_since: i64,
    pub payload: Option<Seq<u8>>,
    pub metadata: Seq<char>,
}

impl CurrentValues {
    pub open spec fn view(&self) -> CurrentV {
        CurrentV {
            fields: self.fields@,
            priority: opt_text(self.priority),
            not_before: self.not_before,
            eligible_since: self.eligible_since,
            payload: bytes_opt(self.payload),
            metadata: self.metadata@,
        }
    }

    pub fn duplicate(&self) -> (r: CurrentValues)
        ensures
            r@ == self@,
    {
        CurrentValues {
            fields: self.fields.clone(),
            priority: clone_opt_text(&self.priority),
            not_before: self.not_before,
            eligible_since: self.eligible_since,
            payload: match &self.payload {
                Some(b) => Some(clone_bytes(b)),
                None => None,
            },
            metadata: self.metadata.clone(),
        }
    }
}

impl FromRow for CurrentValues {
    type V = CurrentV;

    open spec fn content(&self) -> CurrentV {
        self@
    }

    open spec fn row_reading(row: Seq<CellV>) -> Result<CurrentV, ErrorV> {
        match (column::<String>(row, 0), column::<String>(row, 1)) {
            (Err(e), _) => Err(e),
            (_, Err(e)) => Err(e),
            (Ok(fields), Ok(_)) => match (
                column::<Option<String>>(row, 2),
                column::<Option<i64>>(row, 3),
                column::<i64>(row, 4),
            ) {
                (Err(e), _, _) => Err(e),
                (_, Err(e), _) => Err(e),
                (_, _, Err(e)) => Err(e),
                (Ok(priority), Ok(not_before), Ok(eligible_since)) => match (
                    column::<Option<Vec<u8>>>(row, 5),
                    column::<String>(row, 6),
                ) {
                    (Err(e), _) => Err(e),
                    (_, Err(e)) => Err(e),
                    (Ok(payload), Ok(metadata)) => Ok(
                        CurrentV {
                            fields,
                            priority,
                            not_before,
                            eligible_since,
                            payload,
                            metadata,
                        },
                    ),
                },
            },
        }
    }

    fn from_row(row: &RelRow) -> (r: EngineResult<CurrentValues>) {
        let fields = match row.get::<String>(0) {
            Err(e) => return Err(e),
            Ok(v) => v,
        };
        match row.get::<String>(1) {
            Err(e) => return Err(e),
            Ok(_) => {},
        }
        let priority = match row.get::<Option<String>>(2) {
            Err(e) => return Err(e),
            Ok(v) => v,
        };
        let not_before = match row.get::<Option<i64>>(3) {
            Err(e) => return Err(e),
            Ok(v) => v,
        };
        let eligible_since = match row.get::<i64>(4) {
            Err(e) => return Err(e),
            Ok(v) => v,
        };
        let payload = match row.get::<Option<Vec<u8>>>(5) {
            Err(e) => return Err(e),
            Ok(v) => v,
        };
        let metadata = match row.get::<String>(6) {
            Err(e) => return Err(e),
            Ok(v) => v,
        };
        Ok(CurrentValues { fields, priority, not_before, eligible_since, payload, metadata })
    }
}

/// The metadata text after an update.
pub open spec fn revises_metadata(c: UpdateFieldsCommand, now: Seq<char>) -> Script<
    Result<Seq<char>, ErrorV>,
> {
    match c.set_metadata {
        Some(m) => write_metadata(metadata_of(*m)),
        None => Script::Done(Ok(now)),
    }
}

/// The priority text after an update.
pub open spec fn revises_priority(c: UpdateFieldsCommand, now: Option<Seq<char>>) -> Script<
    Result<Option<Seq<char>>, ErrorV>,
> {
    match c.set_priority {
        PriorityUpdate::Replace(p) => writes_priority(opt_priority(p)),
        PriorityUpdate::Keep => Script::Done(Ok(now)),
    }
}

/// The priority that a stored text stands for, if there is one.
pub open spec fn reads_priority(t: Option<Seq<char>>) -> Script<
    Result<Option<PriorityV>, ErrorV>,
> {
    match t {
        None => Script::Done(Ok(None)),
        Some(x) => chain(
            read_priority(x),
            |p: PriorityV| Script::Done(Ok::<Option<PriorityV>, ErrorV>(Some(p))),
        ),
    }
}

/// The payload after an update.
pub open spec fn revised_payload(c: UpdateFieldsCommand, now: Option<Seq<u8>>) -> Option<Seq<u8>> {
    match c.payload {
        PayloadUpdate::Replace(b) => opt_bytes(b),
        PayloadUpdate::Keep => now,
    }
}

/// The schedule after an update, and since when the item is eligible.
pub open spec fn revised_schedule(
    c: UpdateFieldsCommand,
    not_before: Option<i64>,
    since: i64,
    now: i64,
) -> (Option<i64>, i64) {
    match c.set_not_before {
        NotBeforeUpdate::Replace(t) => (
            opt_nanos(t),
            if c.api001_batch {
                since
            } else {
                rearmed_since(opt_nanos(t), now)
            },
        ),
        NotBeforeUpdate::Keep => (not_before, since),
    }
}

/// The values of an item after an update, and the priority among them.
pub open spec fn revises(
    cur: CurrentV,
    c: UpdateFieldsCommand,
    fields: Seq<char>,
    now: i64,
) -> Script<Result<(CurrentV, Option<PriorityV>), ErrorV>> {
    chain(
        revises_metadata(c, cur.metadata),
        |metadata: Seq<char>|
            chain(
                revises_priority(c, cur.priority),
                |priority: Option<Seq<char>>|
                    chain(
                        reads_priority(priority),
                        |p: Option<PriorityV>|
                            Script::Done(
                                Ok::<(CurrentV, Option<PriorityV>), ErrorV>(
                                    (
                                        CurrentV {
                                            fields,
                                            priority,
                                            not_before: revised_schedule(
                                                c,
                                                cur.not_before,
                                                cur.eligible_since,
                                                now,
                                            ).0,
                                            eligible_since: revised_schedule(
                                                c,
                                                cur.not_before,
                                                cur.eligible_since,
                                                now,
                                            ).1,
                                            payload: revised_payload(c, cur.payload),
                                            metadata,
                                        },
                                        p,
                                    ),
                                ),
                            ),
                    ),
            ),
    )
}

pub open spec fn revised_outcome(r: EngineResult<(CurrentValues, Option<PriorityValue>)>) -> Result<
    (CurrentV, Option<PriorityV>),
    ErrorV,
> {
    match r {
        Ok(x) => Ok((x.0@, opt_priority(x.1))),
        Err(e) => Err(e@),
    }
}

fn revise_metadata<T: RelTx + RelCodec>(
    tx: &mut RelSession<T>,
    c: &UpdateFieldsCommand,
    now: String,
) -> (r: EngineResult<String>)
    ensures
        held(
            old(tx).trace(),
            final(tx).trace(),
            revises_metadata(*c, now@),
            text_outcome(r),
        ),
{
    proof {
        lemma_start(tx.trace(), revises_metadata(*c, now@));
    }
    match &c.set_metadata {
        Some(m) => tx.metadata_text(m),
        None => Ok(now),
    }
}

fn revise_priority<T: RelTx + RelCodec>(
    tx: &mut RelSession<T>,
    c: &UpdateFieldsCommand,
    now: Option<String>,
) -> (r: EngineResult<Option<String>>)
    ensures
        held(
            old(tx).trace(),
            final(tx).trace(),
            revises_priority(*c, opt_text(now)),
            opt_text_outcome(r),
        ),
{
    proof {
        lemma_start(tx.trace(), revises_priority(*c, opt_text(now)));
    }
    match &c.set_priority {
        PriorityUpdate::Replace(p) => priority_to_json(tx, p),
        PriorityUpdate::Keep => Ok(now),
    }
}

pub open spec fn opt_priority_outcome(r: EngineResult<Option<PriorityValue>>) -> Result<
    Option<PriorityV>,
    ErrorV,
> {
    match r {
        Ok(p) => Ok(opt_priority(p)),
        Err(e) => Err(e@),
    }
}

pub fn parse_priority<T: RelTx + RelCodec>(tx: &mut RelSession<T>, text: &Option<String>) -> (r:
    EngineResult<Option<PriorityValue>>)
    ensures
        held(
            old(tx).trace(),
            final(tx).trace(),
            reads_priority(opt_text(*text)),
            opt_priority_outcome(r),
        ),
{
    proof {
        lemma_start(tx.trace(), reads_priority(opt_text(*text)));
    }
    match text {
        None => Ok(None),
        Some(t) => match tx.priority_of(t.as_str()) {
            Err(e) => Err(e),
            Ok(p) => Ok(Some(p)),
        },
    }
}

pub fn revise<T: RelTx + RelCodec>(
    tx: &mut RelSession<T>,
    cur: CurrentValues,
    c: &UpdateFieldsCommand,
    fields: String,
    now_n: i64,
) -> (r: EngineResult<(CurrentValues, Option<PriorityValue>)>)
    ensures
        held(
            old(tx).trace(),
            final(tx).trace(),
            revises(cur@, *c, fields@, now_n),
            revised_outcome(r),
        ),
{
    proof {
        lemma_start(tx.trace(), revises(cur@, *c, fields@, now_n));
    }
    let payload = match &c.payload {
        PayloadUpdate::Replace(b) => buffer_bytes(b),
        PayloadUpdate::Keep => cur.payload,
    };
    let metadata = match revise_metadata(tx, c, cur.metadata) {
        Err(e) => return Err(e),
        Ok(t) => t,
    };
    let priority = match revise_priority(tx, c, cur.priority) {
        Err(e) => return Err(e),
        Ok(t) => t,
    };
    let (not_before, eligible_since) = match c.set_not_before {
        NotBeforeUpdate::Replace(t) => {
            let nb = ts_nanos_opt(t);
            let since = if c.api001_batch {
                cur.eligible_since
            } else {
                match nb {
                    Some(v) => if v > now_n {
                        v
                    } else {
                        now_n
                    },
                    None => now_n,
                }
            };
            (nb, since)
        },
        NotBeforeUpdate::Keep => (cur.not_before, cur.eligible_since),
    };
    let parsed = match parse_priority(tx, &priority) {
        Err(e) => return Err(e),
        Ok(p) => p,
    };
    Ok(
        (
            CurrentValues { fields, priority, not_before, eligible_since, payload, metadata },
            parsed,
        ),
    )
}

/// The fields text after an update: those given, or else those stored, with the changes made.
pub open spec fn revised_fields(raw: Seq<char>, c: UpdateFieldsCommand) -> Result<
    Seq<char>,
    ErrorV,
> {
    match fields_of_text(raw) {
        Err(e) => Err(e),
        Ok(stored) => fields_text(
            edited_fields(
                match c.set_fields {
                    Some(f) => field_bytes(*f),
                    None => stored,
                },
                c.field_ops@,
            ),
        ),
    }
}

fn revise_fields(raw: &str, c: &UpdateFieldsCommand) -> (r: EngineResult<String>)
    ensures
        text_outcome(r) == revised_fields(raw@, *c),
{
    let stored = match fields_from_json(raw) {
        Err(e) => return Err(e),
        Ok(m) => m,
    };
    let fields = match &c.set_fields {
        Some(f) => edit_fields(f, &c.field_ops),
        None => edit_fields(&stored, &c.field_ops),
    };
    fields_to_json(&fields)
}

/// An item's gates are replaced.
pub open spec fn regates(insert: Seq<char>, q: QueueV, id: Seq<char>, keys: Seq<Seq<char>>) -> Script<
    Result<(), ErrorV>,
> {
    chain(
        done(DELETE_GATES_OF_ITEM@, own(q).push(CellV::Text(id))),
        |u: ()| each(keys, regate(insert, q, id)),
    )
}

pub open spec fn regate(insert: Seq<char>, q: QueueV, id: Seq<char>) -> spec_fn(
    Seq<char>,
) -> Script<Result<(), ErrorV>> {
    |k: Seq<char>| done(insert, own(q).push(CellV::Text(id)).push(CellV::Text(k)))
}

fn store_gates_of<T: RelTx>(
    tx: &mut RelSession<T>,
    insert: &str,
    shard: &QueueKey,
    id: &str,
    keys: &Vec<String>,
) -> (r: EngineResult<()>)
    ensures
        held(
            old(tx).trace(),
            final(tx).trace(),
            each(texts(keys@), regate(insert@, shard@, id@)),
            outcome(r),
        ),
{
    let ghost all = texts(keys@);
    let ghost f = regate(insert@, shard@, id@);
    let ghost prog = each(all, f);
    let ghost start = tx.trace();
    let mut i: usize = 0;
    proof {
        lemma_start(start, prog);
        assert(all.skip(0) =~= all);
    }
    while i < keys.len()
        invariant
            i <= keys@.len(),
            all == texts(keys@),
            start == old(tx).trace(),
            f == regate(insert@, shard@, id@),
            prog == each(all, f),
            reached(start, tx.trace(), prog, each(all.skip(i as int), f)),
        decreases keys@.len() - i,
    {
        proof {
            assert(all.skip(i as int)[0] == keys@[i as int]@);
            assert(all.skip(i as int).drop_first() =~= all.skip(i as int + 1));
        }
        match rel_done(tx, insert, own_params(shard).text(id).text(keys[i].as_str())) {
            Err(e) => return Err(e),
            Ok(_) => {},
        }
        i = i + 1;
    }
    assert(all.skip(i as int) =~= Seq::<Seq<char>>::empty());
    Ok(())
}

/// Replaces an item's gates.
pub fn replace_gates<T: RelTx>(
    tx: &mut RelSession<T>,
    insert: &str,
    shard: &QueueKey,
    id: &str,
    keys: &Vec<String>,
) -> (r: EngineResult<()>)
    ensures
        held(
            old(tx).trace(),
            final(tx).trace(),
            regates(insert@, shard@, id@, texts(keys@)),
            outcome(r),
        ),
{
    proof {
        lemma_start(tx.trace(), regates(insert@, shard@, id@, texts(keys@)));
    }
    match rel_done(tx, DELETE_GATES_OF_ITEM, own_params(shard).text(id)) {
        Err(e) => return Err(e),
        Ok(_) => {},
    }
    store_gates_of(tx, insert, shard, id, keys)
}

/// An item's rows in the typed indexes are replaced by those of its keys.
pub open spec fn reindexes(
    q: QueueV,
    specs: Seq<QueueIndexV>,
    id: Seq<char>,
    keys: Result<Seq<NamedKey>, ErrorV>,
) -> Script<Result<(), ErrorV>> {
    chain(
        drops_index_rows(q, Seq::<Seq<char>>::empty().push(id)),
        |u: ()|
            match keys {
                Err(e) => Script::Done(Err::<(), ErrorV>(e)),
                Ok(k) => chain(
                    checks_keys(q, specs, k, None),
                    |v: ()| inserts_rows(q, rows_of_keys(id, k)),
                ),
            },
    )
}

/// Replaces an item's rows in the typed indexes.
pub fn reindex<T: RelTx>(
    tx: &mut RelSession<T>,
    shard: &QueueKey,
    typed_indexes: &Vec<QueueIndex>,
    id: &String,
    index_fields: &IndexFields,
) -> (r: EngineResult<()>)
    ensures
        held(
            old(tx).trace(),
            final(tx).trace(),
            reindexes(
                shard@,
                typed_specs_v(typed_indexes@),
                id@,
                native_keys(typed_indexes@.len(), *index_fields),
            ),
            outcome(r),
        ),
{
    proof {
        lemma_start(
            tx.trace(),
            reindexes(
                shard@,
                typed_specs_v(typed_indexes@),
                id@,
                native_keys(typed_indexes@.len(), *index_fields),
            ),
        );
    }
    let mut ids: Vec<String> = Vec::new();
    ids.push(id.clone());
    assert(texts(ids@) =~= Seq::<Seq<char>>::empty().push(id@));
    match delete_typed_index_rows(tx, shard, &ids) {
        Err(e) => return Err(e),
        Ok(_) => {},
    }
    let keys = match typed_index_keys_for_native(typed_indexes, index_fields) {
        Err(e) => return Err(e),
        Ok(k) => k,
    };
    match check_typed_unique_conflicts(tx, shard, typed_indexes, &keys, &None) {
        Err(e) => return Err(e),
        Ok(_) => {},
    }
    insert_typed_index_rows(tx, shard, id.as_str(), &keys)
}

/// An item's entity document is replaced, with what the typed indexes make of it.
pub open spec fn stores_entity(q: QueueV, specs: Seq<QueueIndexV>, id: Seq<char>, doc: Entity) -> Script<
    Result<(), ErrorV>,
> {
    match doc.extracted {
        Err(t) => Script::Done(Err(ErrorV::Storage(t@))),
        Ok(f) => chain(
            write_document(doc.document@),
            |text: Seq<char>|
                match stored_fields(f) {
                    Err(e) => Script::Done(Err::<(), ErrorV>(e)),
                    Ok(blob) => chain(
                        done(
                            UPDATE_ENTITY_DOCUMENT@,
                            own(q).push(CellV::Text(id)).push(CellV::Text(text)).push(
                                blob_cell(blob),
                            ),
                        ),
                        |u: ()|
                            if specs.len() == 0 {
                                Script::Done(Ok::<(), ErrorV>(()))
                            } else {
                                reindexes(q, specs, id, native_keys(specs.len(), f))
                            },
                    ),
                },
        ),
    }
}

fn store_entity<T: RelTx + RelCodec>(
    tx: &mut RelSession<T>,
    shard: &QueueKey,
    typed_indexes: &Vec<QueueIndex>,
    id: &String,
    doc: &Entity,
) -> (r: EngineResult<()>)
    ensures
        held(
            old(tx).trace(),
            final(tx).trace(),
            stores_entity(shard@, typed_specs_v(typed_indexes@), id@, *doc),
            outcome(r),
        ),
{
    proof {
        lemma_start(
            tx.trace(),
            stores_entity(shard@, typed_specs_v(typed_indexes@), id@, *doc),
        );
        assert(typed_specs_v(typed_indexes@).len() == typed_indexes@.len());
    }
    let f = match &doc.extracted {
        Err(t) => return Err(EngineError::Storage(t.clone())),
        Ok(f) => f,
    };
    let text = match tx.document_text(&doc.document) {
        Err(e) => return Err(e),
        Ok(t) => t,
    };
    let blob = match encode_index_fields_blob(f) {
        Err(e) => return Err(e),
        Ok(b) => b,
    };
    match rel_done(
        tx,
        UPDATE_ENTITY_DOCUMENT,
        own_params(shard).text(id.as_str()).text(text.as_str()).maybe_blob(&blob),
    ) {
        Err(e) => return Err(e),
        Ok(_) => {},
    }
    if typed_indexes.len() == 0 {
        return Ok(());
    }
    reindex(tx, shard, typed_indexes, id, f)
}

/// The update may move an item in the queue's order.
pub open spec fn reschedules_item(c: UpdateFieldsCommand) -> bool {
    c.set_priority is Replace || c.set_not_before is Replace
}

pub fn is_rescheduling(c: &UpdateFieldsCommand) -> (r: bool)
    ensures
        r == reschedules_item(*c),
{
    let priority = match &c.set_priority {
        PriorityUpdate::Replace(_) => true,
        PriorityUpdate::Keep => false,
    };
    let not_before = match c.set_not_before {
        NotBeforeUpdate::Replace(_) => true,
        NotBeforeUpdate::Keep => false,
    };
    priority || not_before
}

/// The groups of some items are summarized anew, where the queue has groups.
pub open spec fn regroups(m: MemoryV, q: QueueV, ids: Seq<ItemId>, now: i64) -> Script<
    Result<(), ErrorV>,
> {
    if m.grouped.contains(q) {
        chain(asks_groups(q, ids), |groups: Seq<Seq<char>>| refreshes(q, groups, now))
    } else {
        Script::Done(Ok(()))
    }
}

/// Summarizes the groups of some items anew, where the queue has groups.
pub fn regroup<T: RelTx>(
    tx: &mut RelSession<T>,
    memory: &DriverMemory,
    shard: &QueueKey,
    ids: &Vec<ItemId>,
    now: UtcTimestamp,
) -> (r: EngineResult<()>)
    ensures
        held(
            old(tx).trace(),
            final(tx).trace(),
            regroups(memory@, shard@, ids@, nanos(now)),
            outcome(r),
        ),
{
    proof {
        lemma_start(tx.trace(), regroups(memory@, shard@, ids@, nanos(now)));
    }
    if !memory.grouped_shards.contains(shard) {
        return Ok(());
    }
    let groups = match groups_of(tx, shard, ids) {
        Err(e) => return Err(e),
        Ok(v) => v,
    };
    refresh_group_summaries(tx, shard, &groups, now)
}

/// The parameters of an update of a live item.
pub open spec fn live_cells(
    q: QueueV,
    id: Seq<char>,
    v: CurrentV,
    sort: Seq<u8>,
    now: i64,
    seq: u64,
) -> Seq<CellV> {
    own(q).push(CellV::Text(id)).push(CellV::Text(v.fields)).push(blob_cell(v.payload)).push(
        CellV::Text(v.metadata),
    ).push(text_cell(v.priority)).push(CellV::Blob(sort)).push(int_cell(v.not_before)).push(
        CellV::Integer(v.eligible_since),
    ).push(CellV::Integer(now)).push(CellV::Integer(seq as i64))
}

/// What follows the update of a live item's row: its gates, its place in the order, its document.
pub open spec fn follows_update(
    m: MemoryV,
    queues: Map<QueueV, QueueDefinition>,
    q: QueueV,
    now: i64,
    c: UpdateFieldsCommand,
) -> Script<Kept<()>> {
    let id = numeral(c.item_id as nat);
    let n = if reschedules_item(c) {
        hint_reset(m, q)
    } else {
        m
    };
    hold(
        m,
        match c.set_gate_keys {
            Some(keys) => regates(INSERT_GATE_IF_ABSENT@, q, id, texts(keys@)),
            None => Script::Done(Ok(())),
        },
        |u: ()|
            hold(
                n,
                if reschedules_item(c) {
                    regroups(n, q, Seq::<ItemId>::empty().push(c.item_id), now)
                } else {
                    Script::Done(Ok(()))
                },
                |v: ()|
                    hold(
                        n,
                        match c.set_entity_document {
                            Some(doc) => stores_entity(q, typed_of(queues, q), id, *doc),
                            None => Script::Done(Ok(())),
                        },
                        |w: ()| Script::Done((n, Ok::<(), ErrorV>(()))),
                    ),
            ),
    )
}

/// A live item's values are changed. An item that is not there, or not live, is left alone.
pub open spec fn updates(
    m: MemoryV,
    queues: Map<QueueV, QueueDefinition>,
    q: QueueV,
    seq: u64,
    now: i64,
    c: UpdateFieldsCommand,
) -> Script<Kept<()>> {
    let id = numeral(c.item_id as nat);
    hold(
        m,
        first(SELECT_LIVE_ITEM@, own(q).push(CellV::Text(id))),
        |row: Option<Seq<CellV>>|
            match row {
                None => Script::Done((m, Ok::<(), ErrorV>(()))),
                Some(r) => match CurrentValues::row_reading(r) {
                    Err(e) => Script::Done((m, Err::<(), ErrorV>(e))),
                    Ok(cur) => match revised_fields(cur.fields, c) {
                        Err(e) => Script::Done((m, Err::<(), ErrorV>(e))),
                        Ok(fields) => hold(
                            m,
                            revises(cur, c, fields, now),
                            |x: (CurrentV, Option<PriorityV>)|
                                if !queues.contains_key(q) {
                                    Script::Done((m, Err::<(), ErrorV>(ErrorV::NotFound)))
                                } else {
                                    hold(
                                        m,
                                        done(
                                            UPDATE_LIVE_ITEM@,
                                            live_cells(
                                                q,
                                                id,
                                                x.0,
                                                sort_column(x.1, queues[q].priority_model),
                                                now,
                                                seq,
                                            ),
                                        ),
                                        |u: ()| follows_update(m, queues, q, now, c),
                                    )
                                },
                        ),
                    },
                },
            },
    )
}

fn follow_update<T: RelTx + RelCodec>(
    tx: &mut RelSession<T>,
    memory: &mut DriverMemory,
    shard: &QueueKey,
    definition: &QueueDefinition,
    now: UtcTimestamp,
    c: &UpdateFieldsCommand,
    Ghost(queues): Ghost<Map<QueueV, QueueDefinition>>,
) -> (r: EngineResult<()>)
    requires
        queues.contains_key(shard@),
        queues[shard@] == *definition,
    ensures
        held(
            old(tx).trace(),
            final(tx).trace(),
            follows_update(old(memory)@, queues, shard@, nanos(now), *c),
            (final(memory)@, outcome(r)),
        ),
{
    proof {
        lemma_start(tx.trace(), follows_update(memory@, queues, shard@, nanos(now), *c));
    }
    let id = decimal(c.item_id);
    match &c.set_gate_keys {
        Some(keys) => match replace_gates(tx, INSERT_GATE_IF_ABSENT, shard, id.as_str(), keys) {
            Err(e) => return Err(e),
            Ok(_) => {},
        },
        None => {},
    }
    if is_rescheduling(c) {
        reset_claim_scan_hint(memory, shard);
        let mut ids: Vec<ItemId> = Vec::new();
        ids.push(c.item_id);
        assert(ids@ =~= Seq::<ItemId>::empty().push(c.item_id));
        match regroup(tx, memory, shard, &ids, now) {
            Err(e) => return Err(e),
            Ok(_) => {},
        }
    }
    match &c.set_entity_document {
        Some(doc) => store_entity(tx, shard, &definition.typed_indexes, &id, doc),
        None => Ok(()),
    }
}

/// Changes the values of a live item.
pub fn apply_update_fields_sql<T: RelTx + RelCodec>(
    tx: &mut RelSession<T>,
    queues: &Queues,
    memory: &mut DriverMemory,
    shard: &QueueKey,
    seq: u64,
    now: UtcTimestamp,
    c: &UpdateFieldsCommand,
) -> (r: EngineResult<()>)
    ensures
        held(
            old(tx).trace(),
            final(tx).trace(),
            updates(old(memory)@, queues@, shard@, seq, nanos(now), *c),
            (final(memory)@, outcome(r)),
        ),
{
    proof {
        lemma_start(tx.trace(), updates(memory@, queues@, shard@, seq, nanos(now), *c));
    }
    let id = decimal(c.item_id);
    let now_n = ts_nanos(now);
    let row = match query_optional(tx, SELECT_LIVE_ITEM, own_params(shard).text(id.as_str())) {
        Err(e) => return Err(e),
        Ok(None) => return Ok(()),
        Ok(Some(row)) => row,
    };
    let cur = match CurrentValues::from_row(&row) {
        Err(e) => return Err(e),
        Ok(v) => v,
    };
    let fields = match revise_fields(cur.fields.as_str(), c) {
        Err(e) => return Err(e),
        Ok(t) => t,
    };
    let (v, priority) = match revise(tx, cur, c, fields, now_n) {
        Err(e) => return Err(e),
        Ok(x) => x,
    };
    let definition = match queues.get(shard) {
        None => return Err(EngineError::NotFound),
        Some(d) => d,
    };
    let sort = elig_sort(&priority, &definition.priority_model);
    let params = own_params(shard).text(id.as_str()).text(v.fields.as_str()).maybe_blob(
        &v.payload,
    ).text(v.metadata.as_str()).maybe_text(&v.priority).blob(&sort).maybe_int(
        v.not_before,
    ).number(v.eligible_since).number(now_n).number(seq as i64);
    match rel_done(tx, UPDATE_LIVE_ITEM, params) {
        Err(e) => return Err(e),
        Ok(_) => {},
    }
    follow_update(tx, memory, shard, definition, now, c, Ghost(queues@))
}

} // verus!
