//! Leases in the store, and the end of items whose time is over.

use crate::order::OrdSet;
use crate::relational::codec::{before_by, id_strings, id_texts, item_named, lease_hash, millis_before, nanos, parse_item, token_hash, ts_nanos};
use crate::relational::exec::{RelSession, RelTx, rel_done};
use crate::relational::indexes::{delete_typed_index_rows, drops_index_rows};
use crate::relational::insert::{advance_id_high_water_sql, marks_ids};
use crate::relational::lists::{FromRow, TextRow, contents, contents_outcome, exec_items_in, flat, flatten_rows, list_sql, listed, on_items, params_v, query_listed, query_rows, reads, reads_in, valued, values_sql};
use crate::relational::memory::{DriverMemory, Kept, MemoryV, all_cleared, hold, pass, plain};
use crate::relational::query::{RELATIONAL_BATCH, ids_outcome, own, own_params};
use crate::relational::scan::{advance_claim_scan_hint_for_ids, advances_scan, asks_range, fifo_rowid_range_for_id_strings, move_scan, scan_moved};
use crate::relational::script::{Script, all_of, chain, done, group_talk, held, lemma_all_of_step, lemma_all_of_stops, lemma_start};
use crate::relational::tokens::outcome_ids;
use crate::relational::value::{CellV, Params, text_cells};
use crate::sql::async_projection::{DELETE_ITEMS, DELETE_ITEM_GATES};
use crate::text::{same_text, texts};
use crate::types::{ClaimCommand, CommandPosition, EngineResult, ErrorV, FinalizeKind, FinalizeOutcome, ItemId, QueueKey, QueueV, UtcTimestamp, outcome};
use vstd::prelude::*;
use vstd::string::*;

verus! {

broadcast use group_talk;

pub const UPSERT_LEASE_BEARERS: &'static str = "INSERT INTO fireweed_lease_bearers(tenant_id,queue_id,item_id,lease_token) \
         VALUES ";

pub const UPSERT_LEASE_BEARERS_END: &'static str = " \
         ON CONFLICT(tenant_id,queue_id,item_id) DO UPDATE SET lease_token=excluded.lease_token";

pub const SELECT_ITEMS_IN_STATE: &'static str = "SELECT item_id FROM fireweed_items WHERE tenant_id=? AND queue_id=? \
             AND lifecycle_state=? AND item_id IN";

pub const SELECT_ITEMS_WITH_HASH: &'static str = "SELECT item_id FROM fireweed_items WHERE tenant_id=? AND queue_id=? \
             AND lease_token_hash=? AND item_id IN";

pub const SELECT_REAPABLE_EMITTED: &'static str = "SELECT item_id FROM fireweed_items WHERE tenant_id=?1 AND queue_id=?2 \
             AND superseded=0 AND lifecycle_state IN ('Complete','Failed') \
             AND terminal_at IS NOT NULL AND terminal_at<=?3 \
             AND terminal_command_epoch IS NOT NULL \
             AND (terminal_command_epoch<?4 \
                  OR (terminal_command_epoch=?4 AND last_command_sequence<=?5))";

pub const SELECT_REAPABLE: &'static str = "SELECT item_id FROM fireweed_items WHERE tenant_id=?1 AND queue_id=?2 \
             AND superseded=0 AND lifecycle_state IN ('Complete','Failed') \
             AND terminal_at IS NOT NULL AND terminal_at<=?3";

pub const FUSE_RANGE: &'static str = "UPDATE fireweed_items SET lifecycle_state='Complete', lease_token_hash=NULL, \
             lease_expires_at=NULL, worker_id=NULL, fenced=0, \
             retry_count=CASE WHEN lifecycle_state='Pending' THEN retry_count+1 ELSE retry_count END, \
             item_version=CASE WHEN lifecycle_state='Pending' THEN item_version+2 ELSE item_version+1 END, \
             terminal_at=?1, terminal_command_epoch=?2, updated_at=?3, last_command_sequence=?4 \
             WHERE tenant_id=?5 AND queue_id=?6 AND rowid BETWEEN ?7 AND ?8 AND superseded=0 \
               AND (lifecycle_state='Pending' \
                    OR (lifecycle_state='Leased' AND lease_token_hash=?9))";

pub const FUSE_ITEMS: &'static str = "UPDATE fireweed_items SET lifecycle_state='Complete', lease_token_hash=NULL, \
             lease_expires_at=NULL, worker_id=NULL, fenced=0, \
             retry_count=CASE WHEN lifecycle_state='Pending' THEN retry_count+1 ELSE retry_count END, \
             item_version=CASE WHEN lifecycle_state='Pending' THEN item_version+2 ELSE item_version+1 END, \
             terminal_at=?, terminal_command_epoch=?, updated_at=?, last_command_sequence=? \
             WHERE tenant_id=? AND queue_id=? AND superseded=0 \
               AND (lifecycle_state='Pending' \
                    OR (lifecycle_state='Leased' AND lease_token_hash=?)) \
               AND item_id IN";

/// The row of an item's lease.
pub open spec fn bearer_cells(q: QueueV, token: Seq<char>) -> spec_fn(Seq<char>) -> Seq<CellV> {
    |id: Seq<char>| own(q).push(CellV::Text(id)).push(CellV::Text(token))
}

/// The tokens of leases are stored, in one statement.
pub open spec fn keeps_bearers(q: QueueV, ids: Seq<Seq<char>>, token: Seq<char>) -> Script<
    Result<(), ErrorV>,
> {
    if ids.len() == 0 {
        Script::Done(Ok(()))
    } else {
        done(
            valued(UPSERT_LEASE_BEARERS@, "(?,?,?,?)"@, ids.len(), UPSERT_LEASE_BEARERS_END@),
            flat(ids.map_values(bearer_cells(q, token))),
        )
    }
}

pub fn persist_lease_bearers<T: RelTx>(
    tx: &mut RelSession<T>,
    shard: &QueueKey,
    ids: &Vec<String>,
    token: &str,
) -> (r: EngineResult<()>)
    ensures
        held(
            old(tx).trace(),
            final(tx).trace(),
            keeps_bearers(shard@, texts(ids@), token@),
            outcome(r),
        ),
{
    proof {
        lemma_start(tx.trace(), keeps_bearers(shard@, texts(ids@), token@));
    }
    if ids.len() == 0 {
        return Ok(());
    }
    let ghost all = texts(ids@).map_values(bearer_cells(shard@, token@));
    let mut rows: Vec<Params> = Vec::new();
    let mut i: usize = 0;
    assert(params_v(rows@) =~= all.take(0));
    while i < ids.len()
        invariant
            i <= ids@.len(),
            all == texts(ids@).map_values(bearer_cells(shard@, token@)),
            params_v(rows@) == all.take(i as int),
        decreases ids@.len() - i,
    {
        let ghost before = rows@;
        let p = own_params(shard).text(ids[i].as_str()).text(token);
        rows.push(p);
        proof {
            assert(texts(ids@)[i as int] == ids@[i as int]@);
            assert(all[i as int] == p@);
            assert(params_v(rows@) =~= params_v(before).push(p@));
            assert(all.take(i as int + 1) =~= all.take(i as int).push(all[i as int]));
        }
        i = i + 1;
    }
    assert(all.take(i as int) =~= all);
    let n = rows.len();
    assert(n == texts(ids@).len()) by {
        assert(params_v(rows@).len() == n);
    }
    assert(params_v(rows@).subrange(0, n as int) =~= params_v(rows@));
    let sql = values_sql(UPSERT_LEASE_BEARERS, "(?,?,?,?)", n, UPSERT_LEASE_BEARERS_END);
    rel_done(tx, sql.as_str(), flatten_rows(&rows, 0, n))
}

/// The named items that are in a state.
pub open spec fn asks_in_state(q: QueueV, ids: Seq<Seq<char>>, state: Seq<char>) -> Script<
    Result<Seq<Seq<char>>, ErrorV>,
> {
    reads_in::<TextRow>(
        SELECT_ITEMS_IN_STATE@,
        Seq::empty(),
        own(q).push(CellV::Text(state)),
        ids,
        RELATIONAL_BATCH as nat,
    )
}

pub fn item_ids_in_state<T: RelTx>(
    tx: &mut RelSession<T>,
    shard: &QueueKey,
    ids: &Vec<String>,
    state: &str,
) -> (r: EngineResult<Vec<TextRow>>)
    ensures
        held(
            old(tx).trace(),
            final(tx).trace(),
            asks_in_state(shard@, texts(ids@), state@),
            contents_outcome(r),
        ),
{
    assert(""@ =~= Seq::<char>::empty()) by {
        reveal_strlit("");
    }
    query_listed::<T, TextRow>(
        tx,
        SELECT_ITEMS_IN_STATE,
        "",
        &own_params(shard).text(state),
        ids,
        RELATIONAL_BATCH,
    )
}

pub fn leased_item_id_set<T: RelTx>(tx: &mut RelSession<T>, shard: &QueueKey, ids: &Vec<String>) -> (r:
    EngineResult<Vec<TextRow>>)
    ensures
        held(
            old(tx).trace(),
            final(tx).trace(),
            asks_in_state(shard@, texts(ids@), "Leased"@),
            contents_outcome(r),
        ),
{
    item_ids_in_state(tx, shard, ids, "Leased")
}

/// The named items that are leased under a token.
pub open spec fn asks_with_hash(q: QueueV, ids: Seq<Seq<char>>, hash: Seq<u8>) -> Script<
    Result<Seq<Seq<char>>, ErrorV>,
> {
    reads_in::<TextRow>(
        SELECT_ITEMS_WITH_HASH@,
        Seq::empty(),
        own(q).push(CellV::Blob(hash)),
        ids,
        RELATIONAL_BATCH as nat,
    )
}

pub fn item_ids_with_lease_hash<T: RelTx>(
    tx: &mut RelSession<T>,
    shard: &QueueKey,
    ids: &Vec<String>,
    hash: &Vec<u8>,
) -> (r: EngineResult<Vec<TextRow>>)
    ensures
        held(
            old(tx).trace(),
            final(tx).trace(),
            asks_with_hash(shard@, texts(ids@), hash@),
            contents_outcome(r),
        ),
{
    assert(""@ =~= Seq::<char>::empty()) by {
        reveal_strlit("");
    }
    query_listed::<T, TextRow>(
        tx,
        SELECT_ITEMS_WITH_HASH,
        "",
        &own_params(shard).blob(hash),
        ids,
        RELATIONAL_BATCH,
    )
}

/// Whether a text stands among rows.
pub fn has_row(rows: &Vec<TextRow>, t: &str) -> (r: bool)
    ensures
        r == contents(rows@).contains(t@),
{
    let ghost all = contents(rows@);
    let mut i: usize = 0;
    while i < rows.len()
        invariant
            i <= rows@.len(),
            all == contents(rows@),
            forall|j: int| 0 <= j < i ==> all[j] != t@,
        decreases rows@.len() - i,
    {
        assert(all[i as int] == rows@[i as int].content());
        if same_text(rows[i].0.as_str(), t) {
            return true;
        }
        i = i + 1;
    }
    false
}

/// The item that a text names.
pub open spec fn text_item() -> spec_fn(Seq<char>) -> Result<ItemId, ErrorV> {
    |t: Seq<char>| item_named(t)
}

fn parse_items(rows: &Vec<TextRow>) -> (r: EngineResult<Vec<ItemId>>)
    ensures
        ids_outcome(r) == all_of(contents(rows@), text_item()),
{
    let ghost all = contents(rows@);
    let mut out: Vec<ItemId> = Vec::new();
    let mut i: usize = 0;
    assert(all.take(0) =~= Seq::<Seq<char>>::empty());
    assert(out@ =~= Seq::<ItemId>::empty());
    while i < rows.len()
        invariant
            i <= rows@.len(),
            all == contents(rows@),
            all_of(all.take(i as int), text_item()) == Ok::<Seq<ItemId>, ErrorV>(out@),
        decreases rows@.len() - i,
    {
        proof {
            lemma_all_of_step(all, text_item(), i as int);
            assert(all[i as int] == rows@[i as int].content());
        }
        match parse_item(rows[i].0.as_str()) {
            Err(e) => {
                proof {
                    lemma_all_of_stops(all, text_item(), i as int + 1, e@);
                }
                return Err(e);
            },
            Ok(id) => out.push(id),
        }
        i = i + 1;
    }
    assert(all.take(i as int) =~= all);
    Ok(out)
}

/// Items whose outcome has been kept long enough, and reported where that is asked.
pub open spec fn asks_reapable(
    q: QueueV,
    cutoff: i64,
    emit: bool,
    cursor: Option<(u64, u64)>,
) -> Script<Result<Seq<Seq<char>>, ErrorV>> {
    if emit {
        match cursor {
            None => Script::Done(Ok(Seq::empty())),
            Some(c) => reads::<TextRow>(
                SELECT_REAPABLE_EMITTED@,
                own(q).push(CellV::Integer(cutoff)).push(CellV::Integer(c.0 as i64)).push(
                    CellV::Integer(c.1 as i64),
                ),
            ),
        }
    } else {
        reads::<TextRow>(SELECT_REAPABLE@, own(q).push(CellV::Integer(cutoff)))
    }
}

/// Settled items are deleted with all that belongs to them, and the mark of minted items stays above
/// them.
pub open spec fn reaps(
    q: QueueV,
    now: UtcTimestamp,
    retention_ms: u64,
    emit: bool,
    cursor: Option<(u64, u64)>,
) -> Script<Result<Seq<ItemId>, ErrorV>> {
    chain(
        asks_reapable(q, millis_before(nanos(now), retention_ms), emit, cursor),
        |found: Seq<Seq<char>>|
            match all_of(found, text_item()) {
                Err(e) => Script::Done(Err::<Seq<ItemId>, ErrorV>(e)),
                Ok(ids) => deletes(q, ids),
            },
    )
}

pub open spec fn deletes(q: QueueV, ids: Seq<ItemId>) -> Script<Result<Seq<ItemId>, ErrorV>> {
    if ids.len() == 0 {
        Script::Done(Ok(Seq::empty()))
    } else {
        chain(
            on_items(DELETE_ITEMS@, Seq::empty(), q, id_texts(ids)),
            |u: ()|
                chain(
                    on_items(DELETE_ITEM_GATES@, Seq::empty(), q, id_texts(ids)),
                    |v: ()|
                        chain(
                            drops_index_rows(q, id_texts(ids)),
                            |w: ()|
                                chain(
                                    marks_ids(q, ids),
                                    |x: ()| Script::Done(Ok::<Seq<ItemId>, ErrorV>(ids)),
                                ),
                        ),
                ),
        )
    }
}

fn delete_reaped<T: RelTx>(tx: &mut RelSession<T>, shard: &QueueKey, ids: Vec<ItemId>) -> (r:
    EngineResult<Vec<ItemId>>)
    ensures
        held(old(tx).trace(), final(tx).trace(), deletes(shard@, ids@), ids_outcome(r)),
{
    proof {
        lemma_start(tx.trace(), deletes(shard@, ids@));
    }
    if ids.len() == 0 {
        assert(ids@ =~= Seq::<ItemId>::empty());
        return Ok(ids);
    }
    let names = id_strings(&ids);
    match exec_items_in(tx, DELETE_ITEMS, Params::new(), shard, &names) {
        Err(e) => return Err(e),
        Ok(_) => {},
    }
    match exec_items_in(tx, DELETE_ITEM_GATES, Params::new(), shard, &names) {
        Err(e) => return Err(e),
        Ok(_) => {},
    }
    match delete_typed_index_rows(tx, shard, &names) {
        Err(e) => return Err(e),
        Ok(_) => {},
    }
    match advance_id_high_water_sql(tx, shard, &ids) {
        Err(e) => Err(e),
        Ok(_) => Ok(ids),
    }
}

pub open spec fn cursor_of(c: Option<&CommandPosition>) -> Option<(u64, u64)> {
    match c {
        Some(p) => Some((p.backend_epoch, p.sequence)),
        None => None,
    }
}

fn find_reapable<T: RelTx>(
    tx: &mut RelSession<T>,
    shard: &QueueKey,
    cutoff: i64,
    emit_change_records: bool,
    emission_cursor: Option<&CommandPosition>,
) -> (r: EngineResult<Vec<TextRow>>)
    ensures
        held(
            old(tx).trace(),
            final(tx).trace(),
            asks_reapable(shard@, cutoff, emit_change_records, cursor_of(emission_cursor)),
            contents_outcome(r),
        ),
{
    proof {
        lemma_start(
            tx.trace(),
            asks_reapable(shard@, cutoff, emit_change_records, cursor_of(emission_cursor)),
        );
    }
    if emit_change_records {
        match emission_cursor {
            None => {
                let none: Vec<TextRow> = Vec::new();
                assert(contents(none@) =~= Seq::<Seq<char>>::empty());
                Ok(none)
            },
            Some(c) => query_rows::<T, TextRow>(
                tx,
                SELECT_REAPABLE_EMITTED,
                own_params(shard).number(cutoff).number(c.backend_epoch as i64).number(
                    c.sequence as i64,
                ),
            ),
        }
    } else {
        query_rows::<T, TextRow>(tx, SELECT_REAPABLE, own_params(shard).number(cutoff))
    }
}

/// Deletes settled items whose outcome has been kept long enough.
pub fn reap_terminal_items_sql<T: RelTx>(
    tx: &mut RelSession<T>,
    shard: &QueueKey,
    now: UtcTimestamp,
    terminal_retention_ms: u64,
    emit_change_records: bool,
    emission_cursor: Option<&CommandPosition>,
) -> (r: EngineResult<Vec<ItemId>>)
    ensures
        held(
            old(tx).trace(),
            final(tx).trace(),
            reaps(
                shard@,
                now,
                terminal_retention_ms,
                emit_change_records,
                cursor_of(emission_cursor),
            ),
            ids_outcome(r),
        ),
{
    proof {
        lemma_start(
            tx.trace(),
            reaps(
                shard@,
                now,
                terminal_retention_ms,
                emit_change_records,
                cursor_of(emission_cursor),
            ),
        );
    }
    let cutoff = before_by(ts_nanos(now), terminal_retention_ms);
    let found = match find_reapable(tx, shard, cutoff, emit_change_records, emission_cursor) {
        Err(e) => return Err(e),
        Ok(v) => v,
    };
    let ids = match parse_items(&found) {
        Err(e) => return Err(e),
        Ok(v) => v,
    };
    delete_reaped(tx, shard, ids)
}

/// The outcomes complete just the claimed items, each once.
pub open spec fn completes(ids: Seq<ItemId>, o: Seq<FinalizeOutcome>) -> bool {
    &&& ids.len() == o.len()
    &&& forall|i: int| 0 <= i < o.len() ==> (#[trigger] o[i]).kind is Complete
    &&& outcome_ids(o).no_duplicates()
    &&& outcome_ids(o).to_set() == ids.to_set()
}

fn set_of(ids: &Vec<ItemId>) -> (r: OrdSet<u64>)
    ensures
        r@ == ids@.to_set(),
{
    let mut out: OrdSet<u64> = OrdSet::new();
    let mut i: usize = 0;
    assert(out@ =~= ids@.take(0).to_set());
    while i < ids.len()
        invariant
            i <= ids@.len(),
            out@ == ids@.take(i as int).to_set(),
        decreases ids@.len() - i,
    {
        let ghost before = out@;
        out.insert(ids[i]);
        proof {
            let t = ids@.take(i as int + 1);
            assert(out@ =~= t.to_set()) by {
                assert forall|x: u64| out@.contains(x) <==> t.to_set().contains(x) by {
                    if before.contains(x) {
                        assert(ids@.take(i as int).contains(x));
                        let j = choose|j: int|
                            0 <= j < ids@.take(i as int).len() && ids@.take(i as int)[j] == x;
                        assert(t[j] == x);
                    }
                    if x == ids@[i as int] {
                        assert(t[i as int] == x);
                    }
                    if t.contains(x) {
                        let j = choose|j: int| 0 <= j < t.len() && t[j] == x;
                        if j < i {
                            assert(ids@.take(i as int)[j] == x);
                        }
                    }
                }
            }
        }
        i = i + 1;
    }
    assert(ids@.take(i as int) =~= ids@);
    out
}

/// Whether outcomes complete just the claimed items.
pub fn finalize_completes_claim(claim: &ClaimCommand, outcomes: &Vec<FinalizeOutcome>) -> (r: bool)
    ensures
        r == completes(claim.item_ids@, outcomes@),
{
    if claim.item_ids.len() != outcomes.len() {
        return false;
    }
    let ghost ids = outcome_ids(outcomes@);
    let ghost wanted = claim.item_ids@.to_set();
    let mut k: usize = 0;
    while k < outcomes.len()
        invariant
            k <= outcomes@.len(),
            forall|j: int| 0 <= j < k ==> (#[trigger] outcomes@[j]).kind is Complete,
        decreases outcomes@.len() - k,
    {
        match outcomes[k].kind {
            FinalizeKind::Complete => {},
            _ => {
                assert(!(outcomes@[k as int].kind is Complete));
                return false;
            },
        }
        k = k + 1;
    }
    let mut claimed = set_of(&claim.item_ids);
    let mut i: usize = 0;
    while i < outcomes.len()
        invariant
            i <= outcomes@.len(),
            ids == outcome_ids(outcomes@),
            wanted == claim.item_ids@.to_set(),
            forall|a: int, b: int| 0 <= a < b < i ==> ids[a] != ids[b],
            forall|a: int| 0 <= a < i ==> wanted.contains(#[trigger] ids[a]),
            forall|x: u64| #[trigger]
                claimed@.contains(x) <==> wanted.contains(x) && !ids.take(i as int).contains(x),
        decreases outcomes@.len() - i,
    {
        let id = outcomes[i].item_id;
        let ghost before = claimed@;
        assert(ids[i as int] == id);
        if !claimed.remove(&id) {
            proof {
                assert(!before.contains(id));
                if completes(claim.item_ids@, outcomes@) {
                    assert(ids.to_set().contains(id)) by {
                        assert(ids.contains(id));
                    }
                    assert(ids.take(i as int).contains(id));
                    let j = choose|j: int| 0 <= j < i && ids.take(i as int)[j] == id;
                    assert(ids[j] == ids[i as int]);
                }
            }
            return false;
        }
        proof {
            assert forall|a: int, b: int| 0 <= a < b < i + 1 implies ids[a] != ids[b] by {
                if b == i && ids[a] == ids[b] {
                    assert(ids.take(i as int)[a] == id);
                }
            }
            assert forall|x: u64| #[trigger] claimed@.contains(x) <==> wanted.contains(x)
                && !ids.take(i as int + 1).contains(x) by {
                let t = ids.take(i as int + 1);
                if t.contains(x) {
                    let j = choose|j: int| 0 <= j < t.len() && t[j] == x;
                    if j < i {
                        assert(ids.take(i as int)[j] == x);
                    }
                }
                if ids.take(i as int).contains(x) {
                    let j = choose|j: int| 0 <= j < i && ids.take(i as int)[j] == x;
                    assert(ids.take(i as int + 1)[j] == x);
                }
                assert(ids.take(i as int + 1)[i as int] == id);
            }
        }
        i = i + 1;
    }
    let none_left = claimed.is_empty();
    proof {
        assert(ids.take(i as int) =~= ids);
        if none_left {
            assert(ids.to_set() =~= wanted) by {
                assert forall|x: u64| ids.to_set().contains(x) <==> wanted.contains(x) by {
                    if wanted.contains(x) {
                        assert(!claimed@.contains(x));
                    }
                    if ids.contains(x) {
                        let j = choose|j: int| 0 <= j < ids.len() && ids[j] == x;
                        assert(wanted.contains(ids[j]));
                    }
                }
            }
        } else if completes(claim.item_ids@, outcomes@) {
            assert(claimed@ =~= Set::<u64>::empty()) by {
                assert forall|x: u64| !claimed@.contains(x) by {
                    if claimed@.contains(x) {
                        assert(ids.to_set().contains(x));
                    }
                }
            }
        }
    }
    none_left
}

/// Items go from pending to complete in one step: one more attempt, two more versions. Their tokens
/// are dropped.
pub open spec fn fuses(
    m: MemoryV,
    q: QueueV,
    epoch: u64,
    sequence: u64,
    now: UtcTimestamp,
    ids: Seq<ItemId>,
    token: Seq<char>,
) -> Script<Kept<()>> {
    if plain(m, q) {
        hold(
            m,
            asks_range(q, id_texts(ids), None),
            |range: Option<(i64, i64)>|
                match range {
                    Some(span) => fuses_range(m, q, epoch, sequence, now, ids, token, span),
                    None => fuses_listed(m, q, epoch, sequence, now, ids, token),
                },
        )
    } else {
        fuses_listed(m, q, epoch, sequence, now, ids, token)
    }
}

pub open spec fn fuses_range(
    m: MemoryV,
    q: QueueV,
    epoch: u64,
    sequence: u64,
    now: UtcTimestamp,
    ids: Seq<ItemId>,
    token: Seq<char>,
    span: (i64, i64),
) -> Script<Kept<()>> {
    hold(
        m,
        done(
            FUSE_RANGE@,
            Seq::<CellV>::empty().push(CellV::Integer(nanos(now))).push(
                CellV::Integer(epoch as i64),
            ).push(CellV::Integer(nanos(now))).push(CellV::Integer(sequence as i64)).push(
                CellV::Text(q.tenant_id),
            ).push(CellV::Text(q.queue_id)).push(CellV::Integer(span.0)).push(
                CellV::Integer(span.1),
            ).push(CellV::Blob(token_hash(token))),
        ),
        |u: ()|
            Script::Done(
                {
                    let (n, r) = scan_moved(m, q, span.1);
                    match r {
                        Err(e) => (n, Err::<(), ErrorV>(e)),
                        Ok(_) => (all_cleared(n, q, ids), Ok(())),
                    }
                },
            ),
    )
}

pub open spec fn fuses_listed(
    m: MemoryV,
    q: QueueV,
    epoch: u64,
    sequence: u64,
    now: UtcTimestamp,
    ids: Seq<ItemId>,
    token: Seq<char>,
) -> Script<Kept<()>> {
    hold(
        m,
        done(
            listed(FUSE_ITEMS@, ids.len(), Seq::empty()),
            Seq::<CellV>::empty().push(CellV::Integer(nanos(now))).push(
                CellV::Integer(epoch as i64),
            ).push(CellV::Integer(nanos(now))).push(CellV::Integer(sequence as i64)).push(
                CellV::Text(q.tenant_id),
            ).push(CellV::Text(q.queue_id)).push(CellV::Blob(token_hash(token))) + text_cells(
                id_texts(ids),
            ),
        ),
        |u: ()|
            pass(
                advances_scan(m, q, ids),
                |n: MemoryV, v: ()| Script::Done((all_cleared(n, q, ids), Ok::<(), ErrorV>(()))),
            ),
    )
}

fn fuse_range<T: RelTx>(
    tx: &mut RelSession<T>,
    memory: &mut DriverMemory,
    shard: &QueueKey,
    position: &CommandPosition,
    now: UtcTimestamp,
    claim: &ClaimCommand,
    span: (i64, i64),
) -> (r: EngineResult<()>)
    ensures
        held(
            old(tx).trace(),
            final(tx).trace(),
            fuses_range(
                old(memory)@,
                shard@,
                position.backend_epoch,
                position.sequence,
                now,
                claim.item_ids@,
                claim.lease_token@,
                span,
            ),
            (final(memory)@, outcome(r)),
        ),
{
    proof {
        lemma_start(
            tx.trace(),
            fuses_range(
                memory@,
                shard@,
                position.backend_epoch,
                position.sequence,
                now,
                claim.item_ids@,
                claim.lease_token@,
                span,
            ),
        );
    }
    let now_n = ts_nanos(now);
    let hash = lease_hash(claim.lease_token.as_str());
    let params = Params::new().number(now_n).number(position.backend_epoch as i64).number(
        now_n,
    ).number(position.sequence as i64).text(shard.tenant_id.as_str()).text(
        shard.queue_id.as_str(),
    ).number(span.0).number(span.1).blob(&hash);
    match rel_done(tx, FUSE_RANGE, params) {
        Err(e) => return Err(e),
        Ok(_) => {},
    }
    match move_scan(memory, shard, span.1) {
        Err(e) => return Err(e),
        Ok(_) => {},
    }
    memory.note_cleared(shard, &claim.item_ids);
    Ok(())
}

fn fuse_listed<T: RelTx>(
    tx: &mut RelSession<T>,
    memory: &mut DriverMemory,
    shard: &QueueKey,
    position: &CommandPosition,
    now: UtcTimestamp,
    claim: &ClaimCommand,
    ids: &Vec<String>,
) -> (r: EngineResult<()>)
    requires
        texts(ids@) == id_texts(claim.item_ids@),
    ensures
        held(
            old(tx).trace(),
            final(tx).trace(),
            fuses_listed(
                old(memory)@,
                shard@,
                position.backend_epoch,
                position.sequence,
                now,
                claim.item_ids@,
                claim.lease_token@,
            ),
            (final(memory)@, outcome(r)),
        ),
{
    proof {
        lemma_start(
            tx.trace(),
            fuses_listed(
                memory@,
                shard@,
                position.backend_epoch,
                position.sequence,
                now,
                claim.item_ids@,
                claim.lease_token@,
            ),
        );
        assert(""@ =~= Seq::<char>::empty()) by {
            reveal_strlit("");
        }
    }
    let now_n = ts_nanos(now);
    let hash = lease_hash(claim.lease_token.as_str());
    let n = ids.len();
    proof {
        assert(texts(ids@).len() == n);
        assert(id_texts(claim.item_ids@).len() == claim.item_ids@.len());
        assert(texts(ids@).subrange(0, n as int) =~= texts(ids@));
    }
    let sql = list_sql(FUSE_ITEMS, n, "");
    let params = Params::new().number(now_n).number(position.backend_epoch as i64).number(
        now_n,
    ).number(position.sequence as i64).text(shard.tenant_id.as_str()).text(
        shard.queue_id.as_str(),
    ).blob(&hash).texts(ids, 0, n);
    match rel_done(tx, sql.as_str(), params) {
        Err(e) => return Err(e),
        Ok(_) => {},
    }
    match advance_claim_scan_hint_for_ids(tx, memory, shard, &claim.item_ids) {
        Err(e) => return Err(e),
        Ok(_) => {},
    }
    memory.note_cleared(shard, &claim.item_ids);
    Ok(())
}

/// Completes claimed items in one statement, as where a claim and its completion come together.
pub fn apply_fused_claim_complete_sql<T: RelTx>(
    tx: &mut RelSession<T>,
    memory: &mut DriverMemory,
    shard: &QueueKey,
    finalize_position: &CommandPosition,
    now: UtcTimestamp,
    claim: &ClaimCommand,
) -> (r: EngineResult<()>)
    ensures
        held(
            old(tx).trace(),
            final(tx).trace(),
            fuses(
                old(memory)@,
                shard@,
                finalize_position.backend_epoch,
                finalize_position.sequence,
                now,
                claim.item_ids@,
                claim.lease_token@,
            ),
            (final(memory)@, outcome(r)),
        ),
{
    proof {
        lemma_start(
            tx.trace(),
            fuses(
                memory@,
                shard@,
                finalize_position.backend_epoch,
                finalize_position.sequence,
                now,
                claim.item_ids@,
                claim.lease_token@,
            ),
        );
    }
    let ids = id_strings(&claim.item_ids);
    if memory.is_fifo(shard) {
        match fifo_rowid_range_for_id_strings(tx, shard, &ids, None) {
            Err(e) => return Err(e),
            Ok(Some(span)) => return fuse_range(
                tx,
                memory,
                shard,
                finalize_position,
                now,
                claim,
                span,
            ),
            Ok(None) => {},
        }
    }
    fuse_listed(tx, memory, shard, finalize_position, now, claim, &ids)
}

} // verus!
