//! Which items may be claimed, as the store tells it.

use crate::claims::ClaimCompatibility;
use crate::json::JsonV;
use crate::relational::codec::{item_named, nanos, parse_item, ts_nanos};
use crate::relational::exec::{RelCodec, RelSession, RelTx, first, query_optional};
use crate::relational::memory::{DriverMemory, Kept, MemoryV, hint_reset, hold, plain};
use crate::relational::script::{Script, all_of, chain, group_talk, held, lemma_all_of_step, lemma_all_of_stops, lemma_start, read, write_metadata};
use crate::relational::value::{CellV, Params, RelRow, column, rows_v, text_cell};
use crate::sql::async_projection::{SELECT_ELIGIBLE, SELECT_ELIGIBLE_FIFO_ROWID, SELECT_ELIGIBLE_NO_GATES, SELECT_HAS_BLOCKED_GATES, SELECT_ITEM_CLAIM_FILTERABLE, SELECT_QUEUE_PAUSED};
use crate::text::opt_text;
use crate::types::{EngineResult, ErrorV, ItemId, Metadata, PushItem, QueueKey, QueueV, UtcTimestamp, metadata_of, outcome};
use vstd::prelude::*;

verus! {

broadcast use group_talk;

/// The most rows that one statement names.
pub const RELATIONAL_BATCH: usize = 1500;

/// The tenant and the queue of a shard.
pub fn parts(shard: &QueueKey) -> (r: (String, String))
    ensures
        r.0@ == shard@.tenant_id,
        r.1@ == shard@.queue_id,
{
    (shard.tenant_id.clone(), shard.queue_id.clone())
}

/// The two parameters that bind a statement to its queue.
pub open spec fn own(q: QueueV) -> Seq<CellV> {
    seq![CellV::Text(q.tenant_id), CellV::Text(q.queue_id)]
}

/// The parameters that bind a statement to its queue.
pub fn own_params(shard: &QueueKey) -> (r: Params)
    ensures
        r@ == own(shard@),
{
    Params::of(shard.tenant_id.as_str(), shard.queue_id.as_str())
}

/// The item has neither priority, schedule, group, cohort nor gates.
pub open spec fn plain_item(i: PushItem) -> bool {
    i.priority is None && i.not_before is None && i.group_key is None && i.cohort_size is None
        && i.gate_keys@.len() == 0
}

pub fn is_fifo_claim_scan_item(item: &PushItem) -> (r: bool)
    ensures
        r == plain_item(*item),
{
    item.priority.is_none() && item.not_before.is_none() && item.group_key.is_none()
        && item.cohort_size.is_none() && item.gate_keys.len() == 0
}

pub fn reset_claim_scan_hint(memory: &mut DriverMemory, shard: &QueueKey)
    ensures
        final(memory)@ == hint_reset(old(memory)@, shard@),
{
    memory.claim_scan_hints.remove(shard);
    memory.claim_scan_default_fifo.insert(shard.duplicate(), false);
}

/// A queue starts out plain and stays so while all that is pushed is plain.
pub open spec fn push_observed(m: MemoryV, q: QueueV, all_plain: bool) -> MemoryV {
    if all_plain {
        if m.fifo.contains_key(q) {
            m
        } else {
            MemoryV { fifo: m.fifo.insert(q, true), ..m }
        }
    } else {
        hint_reset(m, q)
    }
}

pub open spec fn all_plain(items: Seq<PushItem>) -> bool {
    forall|i: int| 0 <= i < items.len() ==> plain_item(#[trigger] items[i])
}

pub fn observe_push_for_claim_scan(
    memory: &mut DriverMemory,
    shard: &QueueKey,
    items: &Vec<PushItem>,
)
    ensures
        final(memory)@ == push_observed(old(memory)@, shard@, all_plain(items@)),
{
    note_push(memory, shard, are_plain(items));
}

/// Whether all items are plain.
pub fn are_plain(items: &Vec<PushItem>) -> (r: bool)
    ensures
        r == all_plain(items@),
{
    let mut i: usize = 0;
    while i < items.len()
        invariant
            i <= items@.len(),
            forall|j: int| 0 <= j < i ==> plain_item(#[trigger] items@[j]),
        decreases items@.len() - i,
    {
        if !is_fifo_claim_scan_item(&items[i]) {
            return false;
        }
        i = i + 1;
    }
    true
}

/// Takes note of a push by whether all of it was plain.
pub fn note_push(memory: &mut DriverMemory, shard: &QueueKey, all_plain: bool)
    ensures
        final(memory)@ == push_observed(old(memory)@, shard@, all_plain),
{
    if all_plain {
        if !memory.claim_scan_default_fifo.contains_key(shard) {
            memory.claim_scan_default_fifo.insert(shard.duplicate(), true);
        }
    } else {
        reset_claim_scan_hint(memory, shard);
    }
}

/// The queue hands out nothing.
pub open spec fn asks_paused(q: QueueV) -> Script<Result<bool, ErrorV>> {
    chain(
        first(SELECT_QUEUE_PAUSED@, own(q)),
        |row: Option<Seq<CellV>>|
            Script::Done(
                match row {
                    None => Ok(false),
                    Some(r) => match column::<i64>(r, 0) {
                        Ok(v) => Ok::<bool, ErrorV>(v != 0),
                        Err(e) => Err(e),
                    },
                },
            ),
    )
}

pub fn queue_paused<T: RelTx>(tx: &mut RelSession<T>, shard: &QueueKey) -> (r: EngineResult<bool>)
    ensures
        held(old(tx).trace(), final(tx).trace(), asks_paused(shard@), outcome(r)),
{
    proof {
        lemma_start(tx.trace(), asks_paused(shard@));
    }
    match query_optional(tx, SELECT_QUEUE_PAUSED, own_params(shard)) {
        Err(e) => Err(e),
        Ok(None) => Ok(false),
        Ok(Some(row)) => match row.get::<i64>(0) {
            Ok(v) => Ok(v != 0),
            Err(e) => Err(e),
        },
    }
}

/// Some gate of the queue is blocked.
pub open spec fn asks_gates(q: QueueV) -> Script<Result<bool, ErrorV>> {
    chain(
        first(SELECT_HAS_BLOCKED_GATES@, own(q)),
        |row: Option<Seq<CellV>>|
            Script::Done(
                match row {
                    None => Ok(false),
                    Some(r) => match column::<i64>(r, 0) {
                        Ok(v) => Ok::<bool, ErrorV>(true),
                        Err(e) => Err(e),
                    },
                },
            ),
    )
}

pub fn has_blocked_gates<T: RelTx>(tx: &mut RelSession<T>, shard: &QueueKey) -> (r: EngineResult<
    bool,
>)
    ensures
        held(old(tx).trace(), final(tx).trace(), asks_gates(shard@), outcome(r)),
{
    proof {
        lemma_start(tx.trace(), asks_gates(shard@));
    }
    match query_optional(tx, SELECT_HAS_BLOCKED_GATES, own_params(shard)) {
        Err(e) => Err(e),
        Ok(None) => Ok(false),
        Ok(Some(row)) => match row.get::<i64>(0) {
            Ok(_) => Ok(true),
            Err(e) => Err(e),
        },
    }
}

/// The item that the first column of a row names.
pub open spec fn row_item() -> spec_fn(Seq<CellV>) -> Result<ItemId, ErrorV> {
    |row: Seq<CellV>|
        match column::<String>(row, 0) {
            Err(e) => Err(e),
            Ok(t) => item_named(t),
        }
}

/// The items that rows name.
pub open spec fn row_items(rows: Seq<Seq<CellV>>) -> Result<Seq<ItemId>, ErrorV> {
    all_of(rows, row_item())
}

pub open spec fn ids_outcome(r: EngineResult<Vec<ItemId>>) -> Result<Seq<ItemId>, ErrorV> {
    match r {
        Ok(v) => Ok(v@),
        Err(e) => Err(e@),
    }
}

pub fn decode_item_ids(rows: &Vec<RelRow>) -> (r: EngineResult<Vec<ItemId>>)
    ensures
        ids_outcome(r) == row_items(rows_v(rows@)),
{
    let ghost all = rows_v(rows@);
    let mut out: Vec<ItemId> = Vec::new();
    let mut i: usize = 0;
    assert(all.take(0) =~= Seq::<Seq<CellV>>::empty());
    assert(out@ =~= Seq::<ItemId>::empty());
    while i < rows.len()
        invariant
            i <= rows@.len(),
            all == rows_v(rows@),
            row_items(all.take(i as int)) == Ok::<Seq<ItemId>, ErrorV>(out@),
        decreases rows@.len() - i,
    {
        proof {
            lemma_all_of_step(all, row_item(), i as int);
            assert(all[i as int] == rows@[i as int]@);
        }
        match rows[i].get::<String>(0) {
            Err(e) => {
                proof {
                    lemma_all_of_stops(all, row_item(), i as int + 1, e@);
                }
                return Err(e);
            },
            Ok(text) => match parse_item(text.as_str()) {
                Err(e) => {
                    proof {
                        lemma_all_of_stops(all, row_item(), i as int + 1, e@);
                    }
                    return Err(e);
                },
                Ok(id) => out.push(id),
            },
        }
        i = i + 1;
    }
    assert(all.take(i as int) =~= all);
    Ok(out)
}

/// The items that a reading names.
pub open spec fn named(sql: Seq<char>, params: Seq<CellV>) -> Script<Result<Seq<ItemId>, ErrorV>> {
    chain(read(sql, params), |rows: Seq<Seq<CellV>>| Script::Done(row_items(rows)))
}

pub fn query_items<T: RelTx>(tx: &mut RelSession<T>, sql: &str, params: Params) -> (r: EngineResult<
    Vec<ItemId>,
>)
    ensures
        held(old(tx).trace(), final(tx).trace(), named(sql@, params@), ids_outcome(r)),
{
    proof {
        lemma_start(tx.trace(), named(sql@, params@));
    }
    match tx.query(sql, &params) {
        Err(e) => Err(e),
        Ok(rows) => decode_item_ids(&rows),
    }
}

/// The next items to claim: none of a paused queue, and none behind a blocked gate. A floor limits
/// the scan to later rows where no gate is blocked.
pub open spec fn asks_eligible(
    q: QueueV,
    now: UtcTimestamp,
    limit: usize,
    floor: Option<i64>,
) -> Script<Result<Seq<ItemId>, ErrorV>> {
    chain(
        asks_paused(q),
        |paused: bool|
            if paused {
                Script::Done(Ok::<Seq<ItemId>, ErrorV>(Seq::empty()))
            } else {
                chain(
                    asks_gates(q),
                    |blocked: bool|
                        if blocked {
                            named(
                                SELECT_ELIGIBLE@,
                                own(q).push(CellV::Integer(nanos(now))).push(
                                    CellV::Integer(limit as i64),
                                ),
                            )
                        } else {
                            match floor {
                                Some(f) => named(
                                    SELECT_ELIGIBLE_FIFO_ROWID@,
                                    own(q).push(CellV::Integer(nanos(now))).push(
                                        CellV::Integer(limit as i64),
                                    ).push(CellV::Integer(f)),
                                ),
                                None => named(
                                    SELECT_ELIGIBLE_NO_GATES@,
                                    own(q).push(CellV::Integer(nanos(now))).push(
                                        CellV::Integer(limit as i64),
                                    ),
                                ),
                            }
                        },
                )
            },
    )
}

pub fn select_eligible_sql_after<T: RelTx>(
    tx: &mut RelSession<T>,
    shard: &QueueKey,
    now: UtcTimestamp,
    limit: usize,
    rowid_floor: Option<i64>,
) -> (r: EngineResult<Vec<ItemId>>)
    ensures
        held(
            old(tx).trace(),
            final(tx).trace(),
            asks_eligible(shard@, now, limit, rowid_floor),
            ids_outcome(r),
        ),
{
    proof {
        lemma_start(tx.trace(), asks_eligible(shard@, now, limit, rowid_floor));
    }
    match queue_paused(tx, shard) {
        Err(e) => return Err(e),
        Ok(true) => {
            let none: Vec<ItemId> = Vec::new();
            return Ok(none);
        },
        Ok(false) => {},
    }
    let blocked = match has_blocked_gates(tx, shard) {
        Err(e) => return Err(e),
        Ok(b) => b,
    };
    let params = own_params(shard).number(ts_nanos(now)).number(limit as i64);
    if blocked {
        return query_items(tx, SELECT_ELIGIBLE, params);
    }
    match rowid_floor {
        Some(floor) => query_items(tx, SELECT_ELIGIBLE_FIFO_ROWID, params.number(floor)),
        None => query_items(tx, SELECT_ELIGIBLE_NO_GATES, params),
    }
}

/// Where a plain scan goes on.
pub open spec fn scan_floor(m: MemoryV, q: QueueV) -> i64 {
    if m.hints.contains_key(q) && m.hints[q] > 1 {
        m.hints[q]
    } else {
        1
    }
}

/// The next items to claim, first from where the scan of a plain queue has come to.
pub open spec fn asks_hinted(m: MemoryV, q: QueueV, now: UtcTimestamp, limit: usize) -> Script<
    Kept<Seq<ItemId>>,
> {
    if plain(m, q) {
        hold(
            m,
            asks_eligible(q, now, limit, Some(scan_floor(m, q))),
            |found: Seq<ItemId>|
                if found.len() == limit {
                    Script::Done((m, Ok::<Seq<ItemId>, ErrorV>(found)))
                } else {
                    asks_unhinted(MemoryV { hints: m.hints.remove(q), ..m }, q, now, limit)
                },
        )
    } else {
        asks_unhinted(m, q, now, limit)
    }
}

pub open spec fn asks_unhinted(m: MemoryV, q: QueueV, now: UtcTimestamp, limit: usize) -> Script<
    Kept<Seq<ItemId>>,
> {
    hold(
        m,
        asks_eligible(q, now, limit, None),
        |found: Seq<ItemId>| Script::Done((m, Ok::<Seq<ItemId>, ErrorV>(found))),
    )
}

pub fn select_eligible_sql_with_scan_hint<T: RelTx>(
    tx: &mut RelSession<T>,
    memory: &mut DriverMemory,
    shard: &QueueKey,
    now: UtcTimestamp,
    limit: usize,
) -> (r: EngineResult<Vec<ItemId>>)
    ensures
        held(
            old(tx).trace(),
            final(tx).trace(),
            asks_hinted(old(memory)@, shard@, now, limit),
            (final(memory)@, ids_outcome(r)),
        ),
{
    proof {
        lemma_start(tx.trace(), asks_hinted(memory@, shard@, now, limit));
    }
    if memory.is_fifo(shard) {
        let hint = match memory.claim_scan_hints.get(shard) {
            Some(h) => if *h > 1 {
                *h
            } else {
                1
            },
            None => 1,
        };
        let hinted = match select_eligible_sql_after(tx, shard, now, limit, Some(hint)) {
            Err(e) => return Err(e),
            Ok(found) => found,
        };
        if hinted.len() == limit {
            return Ok(hinted);
        }
        memory.claim_scan_hints.remove(shard);
    }
    select_eligible_sql_after(tx, shard, now, limit, None)
}

/// The next items of a group, or with given metadata, or any.
pub open spec fn asks_compatible(
    q: QueueV,
    c: ClaimCompatibility,
    now: UtcTimestamp,
    max: usize,
) -> Script<Result<Seq<ItemId>, ErrorV>> {
    if max == 0 {
        Script::Done(Ok(Seq::empty()))
    } else if c.group_key is None && metadata_of(c.metadata_equals) == Map::<
        Seq<char>,
        JsonV,
    >::empty() {
        asks_eligible(q, now, max, None)
    } else {
        chain(
            asks_paused(q),
            |paused: bool|
                if paused {
                    Script::Done(Ok::<Seq<ItemId>, ErrorV>(Seq::empty()))
                } else {
                    chain(
                        write_metadata(metadata_of(c.metadata_equals)),
                        |filter: Seq<char>|
                            named(
                                SELECT_ITEM_CLAIM_FILTERABLE@,
                                own(q).push(CellV::Integer(nanos(now))).push(
                                    CellV::Integer(max as i64),
                                ).push(text_cell(opt_text(c.group_key))).push(CellV::Text(filter)),
                            ),
                    )
                },
        )
    }
}

/// Whether there is no metadata.
pub fn no_metadata(m: &Metadata) -> (r: bool)
    ensures
        r == (metadata_of(*m) == Map::<Seq<char>, JsonV>::empty()),
{
    let n = m.len();
    proof {
        if n == 0 {
            assert(metadata_of(*m) =~= Map::<Seq<char>, JsonV>::empty()) by {
                assert forall|k: Seq<char>| !metadata_of(*m).contains_key(k) by {
                    if m@.contains_key(k) {
                        assert(m.listing().contains(k));
                    }
                }
            }
        } else {
            assert(m@.contains_key(m.listing()[0]));
            assert(metadata_of(*m).contains_key(m.listing()[0]));
        }
    }
    n == 0
}

pub fn filter_item_claim_candidates<T: RelTx + RelCodec>(
    tx: &mut RelSession<T>,
    shard: &QueueKey,
    compatibility: &ClaimCompatibility,
    now: UtcTimestamp,
    max: usize,
) -> (r: EngineResult<Vec<ItemId>>)
    ensures
        held(
            old(tx).trace(),
            final(tx).trace(),
            asks_compatible(shard@, *compatibility, now, max),
            ids_outcome(r),
        ),
{
    proof {
        lemma_start(tx.trace(), asks_compatible(shard@, *compatibility, now, max));
    }
    if max == 0 {
        let none: Vec<ItemId> = Vec::new();
        return Ok(none);
    }
    if compatibility.group_key.is_none() && no_metadata(&compatibility.metadata_equals) {
        return select_eligible_sql_after(tx, shard, now, max, None);
    }
    match queue_paused(tx, shard) {
        Err(e) => return Err(e),
        Ok(true) => {
            let none: Vec<ItemId> = Vec::new();
            return Ok(none);
        },
        Ok(false) => {},
    }
    let filter = match tx.metadata_text(&compatibility.metadata_equals) {
        Err(e) => return Err(e),
        Ok(t) => t,
    };
    query_items(
        tx,
        SELECT_ITEM_CLAIM_FILTERABLE,
        own_params(shard).number(ts_nanos(now)).number(max as i64).maybe_text(
            &compatibility.group_key,
        ).text(filter.as_str()),
    )
}

} // verus!
