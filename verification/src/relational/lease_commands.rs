//! Leases given, moved and ended, in the store.

use crate::relational::codec::{id_strings, id_texts, lease_hash, nanos, token_hash, ts_nanos};
use crate::relational::cohorts::{Queues, asks_members, cohort_item_ids, cohort_retention_until, kept_until};
use crate::relational::exec::{RelSession, RelTx, rel_done};
use crate::relational::finalize::DELETE_LEASE_BEARERS;
use crate::relational::leases::{asks_in_state, asks_with_hash, has_row, item_ids_with_lease_hash, keeps_bearers, leased_item_id_set, persist_lease_bearers};
use crate::relational::lists::{TextRow, contents, exec_items_in, on_items, params_v, rows_in, run_rows};
use crate::relational::memory::{DriverMemory, Kept, MemoryV, all_cleared, all_given, hint_reset, hold, pass, plain};
use crate::relational::query::{named, own, own_params, query_items, reset_claim_scan_hint};
use crate::relational::requests::{extend_claim_by_query_idempotency_for_renewal, extends_claims};
use crate::relational::scan::{advance_claim_scan_hint_for_ids, advances_scan, asks_range, fifo_rowid_range_for_id_strings, move_scan, scan_moved};
use crate::relational::script::{Script, chain, done, group_talk, held, lemma_start};
use crate::relational::summary::{RefV, apply_group_summary_remove, load_grouped_items, loads_grouped, refresh_group_summaries, refreshes, removes};
use crate::relational::update::{UPDATE_FIELDS_BATCH, regroup, regroups};
use crate::relational::value::{CellV, Params, text_cell};
use crate::text::{decimal, numeral, opt_text, texts};
use crate::types::{ClaimCommand, CohortClaimCommand, CohortRenewLeaseCommand, CommandPosition, EngineResult, ErrorV, ItemId, QueueDefinition, QueueKey, QueueV, ReassignLeaseCommand, RenewLeaseCommand, UtcTimestamp, outcome};
use vstd::prelude::*;
use vstd::string::*;

verus! {

broadcast use group_talk;

pub const CLAIM_RANGE: &'static str = "UPDATE fireweed_items SET lifecycle_state='Leased', lease_token_hash=?1, \
                     lease_expires_at=?2, worker_id=?3, retry_count=retry_count+1, \
                     item_version=item_version+1, updated_at=?4, last_command_sequence=?5 \
                     WHERE tenant_id=?6 AND queue_id=?7 AND rowid BETWEEN ?8 AND ?9 \
                     AND lifecycle_state='Pending' AND superseded=0";

pub const CLAIM_LISTED: &'static str = "WITH incoming(item_id) AS (VALUES ";

pub const CLAIM_LISTED_END: &'static str = ") \
                         UPDATE fireweed_items SET lifecycle_state='Leased', lease_token_hash=?,\
                         lease_expires_at=?, worker_id=?, retry_count=retry_count+1, \
                         item_version=item_version+1, updated_at=?, last_command_sequence=? \
                         FROM incoming WHERE tenant_id=? AND queue_id=? \
                         AND fireweed_items.item_id=incoming.item_id \
                         AND lifecycle_state='Pending' AND superseded=0";

pub const CLAIM_COHORT_ITEMS: &'static str = "UPDATE fireweed_items SET lifecycle_state='Leased', lease_token_hash=?, \
                 lease_expires_at=?, retry_count=retry_count+1, item_version=item_version+1, \
                 updated_at=?, last_command_sequence=? WHERE tenant_id=? AND queue_id=? AND item_id IN";

pub const CLAIM_COHORT: &'static str = "UPDATE fireweed_cohorts SET state='leased', cohort_lease_token_hash=?4 \
                 WHERE tenant_id=?1 AND queue_id=?2 AND cohort_id=?3";

pub const RENEW_ITEMS: &'static str = "UPDATE fireweed_items SET lease_expires_at=?, item_version=item_version+1, \
                 updated_at=?, last_command_sequence=? WHERE tenant_id=? AND queue_id=? AND item_id IN";

pub const REASSIGN_ITEMS: &'static str = "UPDATE fireweed_items SET lease_token_hash=?, lease_expires_at=?, \
                 retry_count=retry_count+1, item_version=item_version+1, updated_at=?, \
                 last_command_sequence=? WHERE tenant_id=? AND queue_id=? \
                 AND lifecycle_state='Leased' AND item_id IN";

pub const EXPIRE_ITEMS: &'static str = "UPDATE fireweed_items SET lifecycle_state='Pending', lease_token_hash=NULL, \
                 lease_expires_at=NULL, worker_id=NULL, item_version=item_version+1, updated_at=?, \
                 last_command_sequence=? WHERE lease_expires_at IS NOT NULL AND lease_expires_at<? \
                 AND tenant_id=? AND queue_id=? AND lifecycle_state='Leased' AND item_id IN";

pub const SELECT_UNFINISHED_OF_GROUP: &'static str = "SELECT item_id FROM fireweed_items WHERE tenant_id=?1 AND queue_id=?2 \
                     AND group_key=?3 AND lifecycle_state NOT IN ('Complete','Failed')";

pub const FAIL_ITEMS: &'static str = "UPDATE fireweed_items SET lifecycle_state='Failed', item_version=item_version+1, \
                 terminal_at=?, terminal_command_epoch=?, updated_at=?, last_command_sequence=? \
                 WHERE tenant_id=? AND queue_id=? AND item_id IN";

pub const EXPIRE_COHORT: &'static str = "UPDATE fireweed_cohorts SET state='terminal', expire_command_pos=?4, \
                 cohort_lease_token_hash=NULL, retention_until=?5 \
                 WHERE tenant_id=?1 AND queue_id=?2 AND group_key=?3";

/// What a claim writes into a row.
pub open spec fn claim_cells(c: ClaimCommand, now: i64, seq: u64) -> Seq<CellV> {
    Seq::<CellV>::empty().push(CellV::Blob(token_hash(c.lease_token@))).push(
        CellV::Integer(nanos(c.lease_expires_at)),
    ).push(text_cell(opt_text(c.worker_id))).push(CellV::Integer(now)).push(
        CellV::Integer(seq as i64),
    )
}

fn claim_params(c: &ClaimCommand, now_n: i64, seq: u64) -> (r: Params)
    ensures
        r@ == claim_cells(*c, now_n, seq),
{
    let hash = lease_hash(c.lease_token.as_str());
    Params::new().blob(&hash).number(ts_nanos(c.lease_expires_at)).maybe_text(
        &c.worker_id,
    ).number(now_n).number(seq as i64)
}

/// A gapless stretch of rows is leased, and the scan moves past it.
pub open spec fn leases_range(
    m: MemoryV,
    q: QueueV,
    seq: u64,
    now: i64,
    c: ClaimCommand,
    span: (i64, i64),
) -> Script<Kept<()>> {
    hold(
        m,
        done(
            CLAIM_RANGE@,
            claim_cells(c, now, seq).push(CellV::Text(q.tenant_id)).push(
                CellV::Text(q.queue_id),
            ).push(CellV::Integer(span.0)).push(CellV::Integer(span.1)),
        ),
        |u: ()| Script::Done(scan_moved(m, q, span.1)),
    )
}

/// A text alone in a row.
pub open spec fn alone() -> spec_fn(Seq<char>) -> Seq<CellV> {
    |t: Seq<char>| Seq::<CellV>::empty().push(CellV::Text(t))
}

fn lone_params(ids: &Vec<String>) -> (r: Vec<Params>)
    ensures
        params_v(r@) == texts(ids@).map_values(alone()),
{
    let ghost all = texts(ids@).map_values(alone());
    let mut rows: Vec<Params> = Vec::new();
    let mut i: usize = 0;
    assert(params_v(rows@) =~= all.take(0));
    while i < ids.len()
        invariant
            i <= ids@.len(),
            all == texts(ids@).map_values(alone()),
            params_v(rows@) == all.take(i as int),
        decreases ids@.len() - i,
    {
        let ghost before = rows@;
        let p = Params::new().text(ids[i].as_str());
        rows.push(p);
        proof {
            assert(texts(ids@)[i as int] == ids@[i as int]@);
            assert(all[i as int] == p@);
            assert(params_v(rows@) =~= params_v(before).push(p@));
            assert(all.take(i as int + 1) =~= all.take(i as int).push(all[i as int]));
        }
        i = i + 1;
    }
    assert(all.take(i as int) =~= all);
    rows
}

/// The named items are leased, and the scan moves past them.
pub open spec fn leases_listed(m: MemoryV, q: QueueV, seq: u64, now: i64, c: ClaimCommand) -> Script<
    Kept<()>,
> {
    hold(
        m,
        rows_in(
            CLAIM_LISTED@,
            "(?)"@,
            CLAIM_LISTED_END@,
            id_texts(c.item_ids@).map_values(alone()),
            claim_cells(c, now, seq).push(CellV::Text(q.tenant_id)).push(CellV::Text(q.queue_id)),
            UPDATE_FIELDS_BATCH as nat,
        ),
        |u: ()| advances_scan(m, q, c.item_ids@),
    )
}

/// The rows of a claim: in a plain queue by their stretch, where they fill one.
pub open spec fn leases_items(m: MemoryV, q: QueueV, seq: u64, now: i64, c: ClaimCommand) -> Script<
    Kept<()>,
> {
    if plain(m, q) {
        hold(
            m,
            asks_range(q, id_texts(c.item_ids@), Some("Pending"@)),
            |range: Option<(i64, i64)>|
                match range {
                    Some(span) => leases_range(m, q, seq, now, c, span),
                    None => leases_listed(m, q, seq, now, c),
                },
        )
    } else {
        leases_listed(m, q, seq, now, c)
    }
}

fn lease_items<T: RelTx>(
    tx: &mut RelSession<T>,
    memory: &mut DriverMemory,
    shard: &QueueKey,
    seq: u64,
    now_n: i64,
    c: &ClaimCommand,
    ids: &Vec<String>,
) -> (r: EngineResult<()>)
    requires
        texts(ids@) == id_texts(c.item_ids@),
    ensures
        held(
            old(tx).trace(),
            final(tx).trace(),
            leases_items(old(memory)@, shard@, seq, now_n, *c),
            (final(memory)@, outcome(r)),
        ),
{
    proof {
        lemma_start(tx.trace(), leases_items(memory@, shard@, seq, now_n, *c));
    }
    if memory.is_fifo(shard) {
        match fifo_rowid_range_for_id_strings(tx, shard, ids, Some("Pending")) {
            Err(e) => return Err(e),
            Ok(Some(span)) => {
                let params = claim_params(c, now_n, seq).text(shard.tenant_id.as_str()).text(
                    shard.queue_id.as_str(),
                ).number(span.0).number(span.1);
                match rel_done(tx, CLAIM_RANGE, params) {
                    Err(e) => return Err(e),
                    Ok(_) => {},
                }
                return move_scan(memory, shard, span.1);
            },
            Ok(None) => {},
        }
    }
    let tail = claim_params(c, now_n, seq).text(shard.tenant_id.as_str()).text(
        shard.queue_id.as_str(),
    );
    match run_rows(
        tx,
        CLAIM_LISTED,
        "(?)",
        CLAIM_LISTED_END,
        &lone_params(ids),
        &tail,
        UPDATE_FIELDS_BATCH,
    ) {
        Err(e) => return Err(e),
        Ok(_) => {},
    }
    advance_claim_scan_hint_for_ids(tx, memory, shard, &c.item_ids)
}

/// Claimed items leave the summaries of their groups.
pub open spec fn leaves_groups(grouped: bool, q: QueueV, ids: Seq<ItemId>, now: i64) -> Script<
    Result<(), ErrorV>,
> {
    if grouped {
        chain(loads_grouped(q, ids), |removed: Seq<RefV>| removes(q, removed, now))
    } else {
        Script::Done(Ok(()))
    }
}

fn leave_groups<T: RelTx>(
    tx: &mut RelSession<T>,
    grouped: bool,
    shard: &QueueKey,
    ids: &Vec<ItemId>,
    now: UtcTimestamp,
) -> (r: EngineResult<()>)
    ensures
        held(
            old(tx).trace(),
            final(tx).trace(),
            leaves_groups(grouped, shard@, ids@, nanos(now)),
            outcome(r),
        ),
{
    proof {
        lemma_start(tx.trace(), leaves_groups(grouped, shard@, ids@, nanos(now)));
    }
    if !grouped {
        return Ok(());
    }
    let removed = match load_grouped_items(tx, shard, ids) {
        Err(e) => return Err(e),
        Ok(v) => v,
    };
    apply_group_summary_remove(tx, shard, &removed, now)
}

/// Pending items are leased under a token.
pub open spec fn claims_items(m: MemoryV, q: QueueV, seq: u64, now: i64, c: ClaimCommand) -> Script<
    Kept<()>,
> {
    pass(
        leases_items(m, q, seq, now, c),
        |n: MemoryV, u: ()|
            {
                let o = all_given(n, q, c.item_ids@, c.lease_token@);
                hold(
                    o,
                    keeps_bearers(q, id_texts(c.item_ids@), c.lease_token@),
                    |v: ()|
                        hold(
                            o,
                            leaves_groups(o.grouped.contains(q), q, c.item_ids@, now),
                            |w: ()| Script::Done((o, Ok::<(), ErrorV>(()))),
                        ),
                )
            },
    )
}

/// Leases pending items under a token.
pub fn apply_claim_sql<T: RelTx>(
    tx: &mut RelSession<T>,
    memory: &mut DriverMemory,
    shard: &QueueKey,
    seq: u64,
    now: UtcTimestamp,
    c: &ClaimCommand,
) -> (r: EngineResult<()>)
    ensures
        held(
            old(tx).trace(),
            final(tx).trace(),
            claims_items(old(memory)@, shard@, seq, nanos(now), *c),
            (final(memory)@, outcome(r)),
        ),
{
    proof {
        lemma_start(tx.trace(), claims_items(memory@, shard@, seq, nanos(now), *c));
    }
    let ids = id_strings(&c.item_ids);
    match lease_items(tx, memory, shard, seq, ts_nanos(now), c, &ids) {
        Err(e) => return Err(e),
        Ok(_) => {},
    }
    memory.note_given(shard, &c.item_ids, &c.lease_token);
    match persist_lease_bearers(tx, shard, &ids, c.lease_token.as_str()) {
        Err(e) => return Err(e),
        Ok(_) => {},
    }
    let grouped = memory.grouped_shards.contains(shard);
    leave_groups(tx, grouped, shard, &c.item_ids, now)
}

/// The members of a cohort are leased under one token, and the cohort with them.
pub open spec fn claims_cohort(
    m: MemoryV,
    q: QueueV,
    seq: u64,
    now: i64,
    c: CohortClaimCommand,
) -> Script<Kept<()>> {
    let n = hint_reset(m, q);
    hold(
        n,
        on_items(
            CLAIM_COHORT_ITEMS@,
            Seq::<CellV>::empty().push(CellV::Blob(token_hash(c.lease_token@))).push(
                CellV::Integer(nanos(c.lease_expires_at)),
            ).push(CellV::Integer(now)).push(CellV::Integer(seq as i64)),
            q,
            id_texts(c.item_ids@),
        ),
        |u: ()|
            hold(
                n,
                done(
                    CLAIM_COHORT@,
                    own(q).push(CellV::Text(c.cohort_id@)).push(
                        CellV::Blob(token_hash(c.lease_token@)),
                    ),
                ),
                |v: ()|
                    {
                        let o = all_given(n, q, c.item_ids@, c.lease_token@);
                        hold(
                            o,
                            regroups(o, q, c.item_ids@, now),
                            |w: ()| Script::Done((o, Ok::<(), ErrorV>(()))),
                        )
                    },
            ),
    )
}

/// Leases the members of a cohort under one token.
pub fn apply_cohort_claim_sql<T: RelTx>(
    tx: &mut RelSession<T>,
    memory: &mut DriverMemory,
    shard: &QueueKey,
    seq: u64,
    now: UtcTimestamp,
    c: &CohortClaimCommand,
) -> (r: EngineResult<()>)
    ensures
        held(
            old(tx).trace(),
            final(tx).trace(),
            claims_cohort(old(memory)@, shard@, seq, nanos(now), *c),
            (final(memory)@, outcome(r)),
        ),
{
    proof {
        lemma_start(tx.trace(), claims_cohort(memory@, shard@, seq, nanos(now), *c));
    }
    reset_claim_scan_hint(memory, shard);
    let hash = lease_hash(c.lease_token.as_str());
    let ids = id_strings(&c.item_ids);
    match exec_items_in(
        tx,
        CLAIM_COHORT_ITEMS,
        Params::new().blob(&hash).number(ts_nanos(c.lease_expires_at)).number(
            ts_nanos(now),
        ).number(seq as i64),
        shard,
        &ids,
    ) {
        Err(e) => return Err(e),
        Ok(_) => {},
    }
    match rel_done(
        tx,
        CLAIM_COHORT,
        own_params(shard).text(c.cohort_id.as_str()).blob(&hash),
    ) {
        Err(e) => return Err(e),
        Ok(_) => {},
    }
    memory.note_given(shard, &c.item_ids, &c.lease_token);
    regroup(tx, memory, shard, &c.item_ids, now)
}

/// The expiry of some leases is moved.
pub open spec fn renews(q: QueueV, ids: Seq<ItemId>, until: UtcTimestamp, now: i64, seq: u64) -> Script<
    Result<(), ErrorV>,
> {
    on_items(
        RENEW_ITEMS@,
        Seq::<CellV>::empty().push(CellV::Integer(nanos(until))).push(CellV::Integer(now)).push(
            CellV::Integer(seq as i64),
        ),
        q,
        id_texts(ids),
    )
}

fn renew<T: RelTx>(
    tx: &mut RelSession<T>,
    shard: &QueueKey,
    ids: &Vec<ItemId>,
    until: UtcTimestamp,
    now_n: i64,
    seq: u64,
) -> (r: EngineResult<()>)
    ensures
        held(
            old(tx).trace(),
            final(tx).trace(),
            renews(shard@, ids@, until, now_n, seq),
            outcome(r),
        ),
{
    proof {
        lemma_start(tx.trace(), renews(shard@, ids@, until, now_n, seq));
    }
    exec_items_in(
        tx,
        RENEW_ITEMS,
        Params::new().number(ts_nanos(until)).number(now_n).number(seq as i64),
        shard,
        &id_strings(ids),
    )
}

/// Leases are renewed, and with them what claims by query are answered with.
pub open spec fn renews_leases(q: QueueV, seq: u64, now: i64, c: RenewLeaseCommand) -> Script<
    Result<(), ErrorV>,
> {
    chain(
        renews(q, c.item_ids@, c.lease_expires_at, now, seq),
        |u: ()| extends_claims(q, c.item_ids@, c.lease_expires_at),
    )
}

/// Moves the expiry of leases.
pub fn apply_renew_sql<T: RelTx>(
    tx: &mut RelSession<T>,
    shard: &QueueKey,
    seq: u64,
    now: UtcTimestamp,
    c: &RenewLeaseCommand,
) -> (r: EngineResult<()>)
    ensures
        held(
            old(tx).trace(),
            final(tx).trace(),
            renews_leases(shard@, seq, nanos(now), *c),
            outcome(r),
        ),
{
    proof {
        lemma_start(tx.trace(), renews_leases(shard@, seq, nanos(now), *c));
    }
    match renew(tx, shard, &c.item_ids, c.lease_expires_at, ts_nanos(now), seq) {
        Err(e) => return Err(e),
        Ok(_) => {},
    }
    extend_claim_by_query_idempotency_for_renewal(tx, shard, &c.item_ids, c.lease_expires_at)
}

/// The leases of a cohort's members are renewed.
pub open spec fn renews_cohort(q: QueueV, seq: u64, now: i64, c: CohortRenewLeaseCommand) -> Script<
    Result<(), ErrorV>,
> {
    chain(
        asks_members(q, c.cohort_id@),
        |ids: Seq<ItemId>| renews(q, ids, c.lease_expires_at, now, seq),
    )
}

/// Moves the expiry of a cohort's leases.
pub fn apply_cohort_renew_sql<T: RelTx>(
    tx: &mut RelSession<T>,
    shard: &QueueKey,
    seq: u64,
    now: UtcTimestamp,
    c: &CohortRenewLeaseCommand,
) -> (r: EngineResult<()>)
    ensures
        held(
            old(tx).trace(),
            final(tx).trace(),
            renews_cohort(shard@, seq, nanos(now), *c),
            outcome(r),
        ),
{
    proof {
        lemma_start(tx.trace(), renews_cohort(shard@, seq, nanos(now), *c));
    }
    let ids = match cohort_item_ids(tx, shard, c.cohort_id.as_str()) {
        Err(e) => return Err(e),
        Ok(v) => v,
    };
    renew(tx, shard, &ids, c.lease_expires_at, ts_nanos(now), seq)
}

/// The items that are, or are not, among some texts.
pub open spec fn ids_among(ids: Seq<ItemId>, found: Seq<Seq<char>>, wanted: bool) -> Seq<ItemId>
    decreases ids.len(),
{
    if ids.len() == 0 {
        Seq::empty()
    } else if found.contains(numeral(ids.last() as nat)) == wanted {
        ids_among(ids.drop_last(), found, wanted).push(ids.last())
    } else {
        ids_among(ids.drop_last(), found, wanted)
    }
}

fn choose_ids(ids: &Vec<ItemId>, found: &Vec<TextRow>, wanted: bool) -> (r: Vec<ItemId>)
    ensures
        r@ == ids_among(ids@, contents(found@), wanted),
{
    let mut out: Vec<ItemId> = Vec::new();
    let mut i: usize = 0;
    assert(ids@.take(0) =~= Seq::<ItemId>::empty());
    while i < ids.len()
        invariant
            i <= ids@.len(),
            out@ == ids_among(ids@.take(i as int), contents(found@), wanted),
        decreases ids@.len() - i,
    {
        proof {
            assert(ids@.take(i as int + 1).drop_last() =~= ids@.take(i as int));
            assert(ids@.take(i as int + 1).last() == ids@[i as int]);
        }
        if has_row(found, decimal(ids[i]).as_str()) == wanted {
            out.push(ids[i]);
        }
        i = i + 1;
    }
    assert(ids@.take(i as int) =~= ids@);
    out
}

/// Leases are handed to a new holder. Only items that took the token are noted under it.
pub open spec fn reassigns(m: MemoryV, q: QueueV, seq: u64, now: i64, c: ReassignLeaseCommand) -> Script<
    Kept<()>,
> {
    let hash = token_hash(c.lease_token@);
    hold(
        m,
        on_items(
            REASSIGN_ITEMS@,
            Seq::<CellV>::empty().push(CellV::Blob(hash)).push(
                CellV::Integer(nanos(c.lease_expires_at)),
            ).push(CellV::Integer(now)).push(CellV::Integer(seq as i64)),
            q,
            id_texts(c.item_ids@),
        ),
        |u: ()|
            hold(
                m,
                asks_with_hash(q, id_texts(c.item_ids@), hash),
                |assigned: Seq<Seq<char>>|
                    {
                        let n = all_given(
                            m,
                            q,
                            ids_among(c.item_ids@, assigned, true),
                            c.lease_token@,
                        );
                        hold(
                            n,
                            keeps_bearers(q, id_texts(c.item_ids@), c.lease_token@),
                            |v: ()| Script::Done((n, Ok::<(), ErrorV>(()))),
                        )
                    },
            ),
    )
}

/// Hands leases to a new holder.
pub fn apply_reassign_sql<T: RelTx>(
    tx: &mut RelSession<T>,
    memory: &mut DriverMemory,
    shard: &QueueKey,
    seq: u64,
    now: UtcTimestamp,
    c: &ReassignLeaseCommand,
) -> (r: EngineResult<()>)
    ensures
        held(
            old(tx).trace(),
            final(tx).trace(),
            reassigns(old(memory)@, shard@, seq, nanos(now), *c),
            (final(memory)@, outcome(r)),
        ),
{
    proof {
        lemma_start(tx.trace(), reassigns(memory@, shard@, seq, nanos(now), *c));
    }
    let hash = lease_hash(c.lease_token.as_str());
    let ids = id_strings(&c.item_ids);
    match exec_items_in(
        tx,
        REASSIGN_ITEMS,
        Params::new().blob(&hash).number(ts_nanos(c.lease_expires_at)).number(
            ts_nanos(now),
        ).number(seq as i64),
        shard,
        &ids,
    ) {
        Err(e) => return Err(e),
        Ok(_) => {},
    }
    let assigned = match item_ids_with_lease_hash(tx, shard, &ids, &hash) {
        Err(e) => return Err(e),
        Ok(v) => v,
    };
    let given = choose_ids(&c.item_ids, &assigned, true);
    memory.note_given(shard, &given, &c.lease_token);
    persist_lease_bearers(tx, shard, &ids, c.lease_token.as_str())
}

/// Leases that are past their time end, and their items go back. A live lease is left alone.
pub open spec fn expires(m: MemoryV, q: QueueV, seq: u64, now: i64, ids: Seq<ItemId>) -> Script<
    Kept<()>,
> {
    let n = hint_reset(m, q);
    hold(
        n,
        on_items(
            EXPIRE_ITEMS@,
            Seq::<CellV>::empty().push(CellV::Integer(now)).push(
                CellV::Integer(seq as i64),
            ).push(CellV::Integer(now)),
            q,
            id_texts(ids),
        ),
        |u: ()|
            hold(
                n,
                asks_in_state(q, id_texts(ids), "Leased"@),
                |leased: Seq<Seq<char>>|
                    {
                        let ended = ids_among(ids, leased, false);
                        hold(
                            n,
                            on_items(DELETE_LEASE_BEARERS@, Seq::empty(), q, id_texts(ended)),
                            |v: ()|
                                {
                                    let o = all_cleared(n, q, ended);
                                    hold(
                                        o,
                                        regroups(o, q, ids, now),
                                        |w: ()| Script::Done((o, Ok::<(), ErrorV>(()))),
                                    )
                                },
                        )
                    },
            ),
    )
}

/// Ends leases that are past their time.
pub fn apply_lease_expired_sql<T: RelTx>(
    tx: &mut RelSession<T>,
    memory: &mut DriverMemory,
    shard: &QueueKey,
    seq: u64,
    now: UtcTimestamp,
    item_ids: &Vec<ItemId>,
) -> (r: EngineResult<()>)
    ensures
        held(
            old(tx).trace(),
            final(tx).trace(),
            expires(old(memory)@, shard@, seq, nanos(now), item_ids@),
            (final(memory)@, outcome(r)),
        ),
{
    proof {
        lemma_start(tx.trace(), expires(memory@, shard@, seq, nanos(now), item_ids@));
    }
    reset_claim_scan_hint(memory, shard);
    let ids = id_strings(item_ids);
    let now_n = ts_nanos(now);
    match exec_items_in(
        tx,
        EXPIRE_ITEMS,
        Params::new().number(now_n).number(seq as i64).number(now_n),
        shard,
        &ids,
    ) {
        Err(e) => return Err(e),
        Ok(_) => {},
    }
    let leased = match leased_item_id_set(tx, shard, &ids) {
        Err(e) => return Err(e),
        Ok(v) => v,
    };
    let ended = choose_ids(item_ids, &leased, false);
    match exec_items_in(tx, DELETE_LEASE_BEARERS, Params::new(), shard, &id_strings(&ended)) {
        Err(e) => return Err(e),
        Ok(_) => {},
    }
    memory.note_cleared(shard, &ended);
    regroup(tx, memory, shard, item_ids, now)
}

/// A cohort that did not complete in time fails with all its unfinished members.
pub open spec fn expires_cohort(
    m: MemoryV,
    queues: Map<QueueV, QueueDefinition>,
    q: QueueV,
    epoch: u64,
    seq: u64,
    now: i64,
    group: Seq<char>,
) -> Script<Kept<()>> {
    hold(
        m,
        named(SELECT_UNFINISHED_OF_GROUP@, own(q).push(CellV::Text(group))),
        |ids: Seq<ItemId>|
            hold(
                m,
                on_items(
                    FAIL_ITEMS@,
                    Seq::<CellV>::empty().push(CellV::Integer(now)).push(
                        CellV::Integer(epoch as i64),
                    ).push(CellV::Integer(now)).push(CellV::Integer(seq as i64)),
                    q,
                    id_texts(ids),
                ),
                |u: ()|
                    {
                        let n = all_cleared(m, q, ids);
                        match kept_until(queues, q, now) {
                            Err(e) => Script::Done((n, Err::<(), ErrorV>(e))),
                            Ok(until) => hold(
                                n,
                                done(
                                    EXPIRE_COHORT@,
                                    own(q).push(CellV::Text(group)).push(
                                        CellV::Integer(seq as i64),
                                    ).push(CellV::Integer(until)),
                                ),
                                |v: ()|
                                    hold(
                                        n,
                                        refreshes(q, Seq::<Seq<char>>::empty().push(group), now),
                                        |w: ()| Script::Done((n, Ok::<(), ErrorV>(()))),
                                    ),
                            ),
                        }
                    },
            ),
    )
}

/// Fails a cohort that did not complete in time.
pub fn apply_cohort_expired_sql<T: RelTx>(
    tx: &mut RelSession<T>,
    queues: &Queues,
    memory: &mut DriverMemory,
    shard: &QueueKey,
    position: &CommandPosition,
    seq: u64,
    now: UtcTimestamp,
    group_key: &String,
) -> (r: EngineResult<()>)
    ensures
        held(
            old(tx).trace(),
            final(tx).trace(),
            expires_cohort(
                old(memory)@,
                queues@,
                shard@,
                position.backend_epoch,
                seq,
                nanos(now),
                group_key@,
            ),
            (final(memory)@, outcome(r)),
        ),
{
    proof {
        lemma_start(
            tx.trace(),
            expires_cohort(
                memory@,
                queues@,
                shard@,
                position.backend_epoch,
                seq,
                nanos(now),
                group_key@,
            ),
        );
    }
    let now_n = ts_nanos(now);
    let ids = match query_items(
        tx,
        SELECT_UNFINISHED_OF_GROUP,
        own_params(shard).text(group_key.as_str()),
    ) {
        Err(e) => return Err(e),
        Ok(v) => v,
    };
    match exec_items_in(
        tx,
        FAIL_ITEMS,
        Params::new().number(now_n).number(position.backend_epoch as i64).number(now_n).number(
            seq as i64,
        ),
        shard,
        &id_strings(&ids),
    ) {
        Err(e) => return Err(e),
        Ok(_) => {},
    }
    memory.note_cleared(shard, &ids);
    let until = match cohort_retention_until(queues, shard, now_n) {
        Err(e) => return Err(e),
        Ok(v) => v,
    };
    match rel_done(
        tx,
        EXPIRE_COHORT,
        own_params(shard).text(group_key.as_str()).number(seq as i64).number(until),
    ) {
        Err(e) => return Err(e),
        Ok(_) => {},
    }
    let mut groups: Vec<String> = Vec::new();
    groups.push(group_key.clone());
    assert(texts(groups@) =~= Seq::<Seq<char>>::empty().push(group_key@));
    refresh_group_summaries(tx, shard, &groups, now)
}

} // verus!
