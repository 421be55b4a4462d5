//! Items removed and superseded, in the store.

use crate::relational::codec::{id_strings, id_texts, later_by, millis_later, nanos, parse_state, state_named, ts_nanos};
use crate::relational::cohorts::Queues;
use crate::relational::exec::{RelCodec, RelSession, RelTx, rel_done};
use crate::relational::indexes::{InsertItemSpec, delete_typed_index_rows, drops_index_rows};
use crate::relational::insert::{insert_item_specs, inserts, pairs_v};
use crate::relational::lists::{FromRow, contents, exec_items_in, on_items, params_v, query_listed, reads_in, rows_in, run_rows};
use crate::relational::memory::{DriverMemory, Kept, MemoryV, all_cleared, hint_reset, hold};
use crate::relational::query::{RELATIONAL_BATCH, own, own_params, reset_claim_scan_hint};
use crate::relational::script::{Script, chain, done, group_talk, held, lemma_start};
use crate::relational::summary::{add_group, asks_groups, groups_of, refresh_group_summaries, refreshes, with_group};
use crate::relational::value::{CellV, Params, RelRow, column};
use crate::sql::async_projection::{DELETE_ITEMS, DELETE_ITEM_GATES};
use crate::text::{contains_text, decimal, numeral, opt_text, same_text, texts};
use crate::types::{EngineError, EngineResult, ErrorV, ItemId, PushItem, QueueDefinition, QueueKey, QueueV, ReplacePendingCommand, UtcTimestamp, outcome};
use vstd::prelude::*;
use vstd::string::*;

verus! {

broadcast use group_talk;

pub const SUPERSEDE: &'static str = "UPDATE fireweed_items SET superseded=1, updated_at=?4, last_command_sequence=?5 \
                 WHERE tenant_id=?1 AND queue_id=?2 AND item_id=?3";

pub const SELECT_PURGED: &'static str = "SELECT item_id, group_key, client_item_key, lifecycle_state FROM fireweed_items \
                     WHERE tenant_id=? AND queue_id=? AND item_id IN";

pub const RETAIN_KEYS: &'static str = "INSERT INTO fireweed_item_key_retention \
                         (tenant_id,queue_id,client_item_key,item_id,expires_at) VALUES ";

pub const RETAIN_KEYS_END: &'static str = " \
                         ON CONFLICT(tenant_id,queue_id,client_item_key) \
                         DO UPDATE SET item_id=excluded.item_id, expires_at=excluded.expires_at";

/// An item that is to be removed.
pub struct PurgedRow {
    pub item_id: String,
    pub group_key: Option<String>,
    pub client_item_key: String,
}

pub ghost struct PurgedV {
    pub item_id: Seq<char>,
    pub group_key: Option<Seq<char>>,
    pub client_item_key: Seq<char>,
}

impl FromRow for PurgedRow {
    type V = PurgedV;

    open spec fn content(&self) -> PurgedV {
        PurgedV {
            item_id: self.item_id@,
            group_key: opt_text(self.group_key),
            client_item_key: self.client_item_key@,
        }
    }

    open spec fn row_reading(row: Seq<CellV>) -> Result<PurgedV, ErrorV> {
        match (column::<String>(row, 0), column::<Option<String>>(row, 1)) {
            (Err(e), _) => Err(e),
            (_, Err(e)) => Err(e),
            (Ok(item_id), Ok(group_key)) => match (
                column::<String>(row, 2),
                column::<String>(row, 3),
            ) {
                (Err(e), _) => Err(e),
                (_, Err(e)) => Err(e),
                (Ok(client_item_key), Ok(state)) => match state_named(state) {
                    Err(e) => Err(e),
                    Ok(_) => Ok(PurgedV { item_id, group_key, client_item_key }),
                },
            },
        }
    }

    fn from_row(row: &RelRow) -> (r: EngineResult<PurgedRow>) {
        let item_id = match row.get::<String>(0) {
            Err(e) => return Err(e),
            Ok(v) => v,
        };
        let group_key = match row.get::<Option<String>>(1) {
            Err(e) => return Err(e),
            Ok(v) => v,
        };
        let client_item_key = match row.get::<String>(2) {
            Err(e) => return Err(e),
            Ok(v) => v,
        };
        let state = match row.get::<String>(3) {
            Err(e) => return Err(e),
            Ok(v) => v,
        };
        match parse_state(state.as_str()) {
            Err(e) => Err(e),
            Ok(_) => Ok(PurgedRow { item_id, group_key, client_item_key }),
        }
    }
}

/// The pairs under other keys.
pub open spec fn other_keys(
    pairs: Seq<(Seq<char>, Seq<char>)>,
    key: Seq<char>,
) -> Seq<(Seq<char>, Seq<char>)>
    decreases pairs.len(),
{
    if pairs.len() == 0 {
        Seq::empty()
    } else if pairs.last().0 == key {
        other_keys(pairs.drop_last(), key)
    } else {
        other_keys(pairs.drop_last(), key).push(pairs.last())
    }
}

/// The keys of removed items, each with the item that last held it.
pub open spec fn retained(rows: Seq<PurgedV>) -> Seq<(Seq<char>, Seq<char>)>
    decreases rows.len(),
{
    if rows.len() == 0 {
        Seq::empty()
    } else {
        other_keys(retained(rows.drop_last()), rows.last().client_item_key).push(
            (rows.last().client_item_key, rows.last().item_id),
        )
    }
}

/// The groups of removed items, each once.
pub open spec fn purged_groups(rows: Seq<PurgedV>) -> Seq<Seq<char>>
    decreases rows.len(),
{
    if rows.len() == 0 {
        Seq::empty()
    } else {
        let before = purged_groups(rows.drop_last());
        match rows.last().group_key {
            Some(g) => with_group(before, g),
            None => before,
        }
    }
}

fn without_key(pairs: &Vec<(String, String)>, key: &str) -> (r: Vec<(String, String)>)
    ensures
        pairs_v(r@) == other_keys(pairs_v(pairs@), key@),
{
    let ghost all = pairs_v(pairs@);
    let mut out: Vec<(String, String)> = Vec::new();
    let mut i: usize = 0;
    assert(all.take(0) =~= Seq::<(Seq<char>, Seq<char>)>::empty());
    assert(pairs_v(out@) =~= Seq::<(Seq<char>, Seq<char>)>::empty());
    while i < pairs.len()
        invariant
            i <= pairs@.len(),
            all == pairs_v(pairs@),
            pairs_v(out@) == other_keys(all.take(i as int), key@),
        decreases pairs@.len() - i,
    {
        proof {
            assert(all.take(i as int + 1).drop_last() =~= all.take(i as int));
            assert(all.take(i as int + 1).last() == (pairs@[i as int].0@, pairs@[i as int].1@));
        }
        if !same_text(pairs[i].0.as_str(), key) {
            let ghost before = out@;
            let a = pairs[i].0.clone();
            let b = pairs[i].1.clone();
            out.push((a, b));
            assert(pairs_v(out@) =~= pairs_v(before).push((a@, b@)));
        }
        i = i + 1;
    }
    assert(all.take(i as int) =~= all);
    out
}

fn retain_keys(rows: &Vec<PurgedRow>) -> (r: Vec<(String, String)>)
    ensures
        pairs_v(r@) == retained(contents(rows@)),
{
    let ghost all = contents(rows@);
    let mut out: Vec<(String, String)> = Vec::new();
    let mut i: usize = 0;
    assert(all.take(0) =~= Seq::<PurgedV>::empty());
    assert(pairs_v(out@) =~= Seq::<(Seq<char>, Seq<char>)>::empty());
    while i < rows.len()
        invariant
            i <= rows@.len(),
            all == contents(rows@),
            pairs_v(out@) == retained(all.take(i as int)),
        decreases rows@.len() - i,
    {
        proof {
            assert(all.take(i as int + 1).drop_last() =~= all.take(i as int));
            assert(all.take(i as int + 1).last() == rows@[i as int].content());
        }
        out = without_key(&out, rows[i].client_item_key.as_str());
        let ghost before = out@;
        let a = rows[i].client_item_key.clone();
        let b = rows[i].item_id.clone();
        out.push((a, b));
        assert(pairs_v(out@) =~= pairs_v(before).push((a@, b@)));
        i = i + 1;
    }
    assert(all.take(i as int) =~= all);
    out
}

fn groups_of_purged(rows: &Vec<PurgedRow>) -> (r: Vec<String>)
    ensures
        texts(r@) == purged_groups(contents(rows@)),
{
    let ghost all = contents(rows@);
    let mut out: Vec<String> = Vec::new();
    let mut i: usize = 0;
    assert(all.take(0) =~= Seq::<PurgedV>::empty());
    assert(texts(out@) =~= Seq::<Seq<char>>::empty());
    while i < rows.len()
        invariant
            i <= rows@.len(),
            all == contents(rows@),
            texts(out@) == purged_groups(all.take(i as int)),
        decreases rows@.len() - i,
    {
        proof {
            assert(all.take(i as int + 1).drop_last() =~= all.take(i as int));
            assert(all.take(i as int + 1).last() == rows@[i as int].content());
        }
        match &rows[i].group_key {
            Some(g) => add_group(&mut out, g.as_str()),
            None => {},
        }
        i = i + 1;
    }
    assert(all.take(i as int) =~= all);
    out
}

pub open spec fn retained_cells(q: QueueV, until: i64) -> spec_fn((Seq<char>, Seq<char>)) -> Seq<
    CellV,
> {
    |p: (Seq<char>, Seq<char>)|
        own(q).push(CellV::Text(p.0)).push(CellV::Text(p.1)).push(CellV::Integer(until))
}

fn retained_params(shard: &QueueKey, pairs: &Vec<(String, String)>, until: i64) -> (r: Vec<Params>)
    ensures
        params_v(r@) == pairs_v(pairs@).map_values(retained_cells(shard@, until)),
{
    let ghost all = pairs_v(pairs@).map_values(retained_cells(shard@, until));
    let mut rows: Vec<Params> = Vec::new();
    let mut i: usize = 0;
    assert(params_v(rows@) =~= all.take(0));
    while i < pairs.len()
        invariant
            i <= pairs@.len(),
            all == pairs_v(pairs@).map_values(retained_cells(shard@, until)),
            params_v(rows@) == all.take(i as int),
        decreases pairs@.len() - i,
    {
        let ghost before = rows@;
        let p = own_params(shard).text(pairs[i].0.as_str()).text(pairs[i].1.as_str()).number(
            until,
        );
        rows.push(p);
        proof {
            assert(pairs_v(pairs@)[i as int] == (pairs@[i as int].0@, pairs@[i as int].1@));
            assert(all[i as int] == p@);
            assert(params_v(rows@) =~= params_v(before).push(p@));
            assert(all.take(i as int + 1) =~= all.take(i as int).push(all[i as int]));
        }
        i = i + 1;
    }
    assert(all.take(i as int) =~= all);
    rows
}

/// How long the key of a removed item stays taken.
pub open spec fn retention_of(queues: Map<QueueV, QueueDefinition>, q: QueueV) -> u64 {
    if queues.contains_key(q) {
        queues[q].client_item_key_retention_ms
    } else {
        0
    }
}

/// The keys of removed items stay taken for a time.
pub open spec fn retains(q: QueueV, retention: u64, rows: Seq<PurgedV>, now: i64) -> Script<
    Result<(), ErrorV>,
> {
    if retention == 0 {
        Script::Done(Ok(()))
    } else {
        rows_in(
            RETAIN_KEYS@,
            "(?,?,?,?,?)"@,
            RETAIN_KEYS_END@,
            retained(rows).map_values(retained_cells(q, millis_later(now, retention))),
            Seq::empty(),
            RELATIONAL_BATCH as nat,
        )
    }
}

fn retain<T: RelTx>(
    tx: &mut RelSession<T>,
    shard: &QueueKey,
    retention_ms: u64,
    rows: &Vec<PurgedRow>,
    now_n: i64,
) -> (r: EngineResult<()>)
    ensures
        held(
            old(tx).trace(),
            final(tx).trace(),
            retains(shard@, retention_ms, contents(rows@), now_n),
            outcome(r),
        ),
{
    proof {
        lemma_start(tx.trace(), retains(shard@, retention_ms, contents(rows@), now_n));
    }
    if retention_ms == 0 {
        return Ok(());
    }
    let params = retained_params(shard, &retain_keys(rows), later_by(now_n, retention_ms));
    run_rows(
        tx,
        RETAIN_KEYS,
        "(?,?,?,?,?)",
        RETAIN_KEYS_END,
        &params,
        &Params::new(),
        RELATIONAL_BATCH,
    )
}

/// The rows of items are deleted, with their gates and index rows.
pub open spec fn deletes_items(q: QueueV, ids: Seq<Seq<char>>) -> Script<Result<(), ErrorV>> {
    chain(
        on_items(DELETE_ITEMS@, Seq::empty(), q, ids),
        |u: ()|
            chain(
                on_items(DELETE_ITEM_GATES@, Seq::empty(), q, ids),
                |v: ()| drops_index_rows(q, ids),
            ),
    )
}

fn delete_all<T: RelTx>(tx: &mut RelSession<T>, shard: &QueueKey, ids: &Vec<String>) -> (r:
    EngineResult<()>)
    ensures
        held(
            old(tx).trace(),
            final(tx).trace(),
            deletes_items(shard@, texts(ids@)),
            outcome(r),
        ),
{
    proof {
        lemma_start(tx.trace(), deletes_items(shard@, texts(ids@)));
    }
    match exec_items_in(tx, DELETE_ITEMS, Params::new(), shard, ids) {
        Err(e) => return Err(e),
        Ok(_) => {},
    }
    match exec_items_in(tx, DELETE_ITEM_GATES, Params::new(), shard, ids) {
        Err(e) => return Err(e),
        Ok(_) => {},
    }
    delete_typed_index_rows(tx, shard, ids)
}

/// Items are removed. Their keys stay taken for a time, whatever state the items were in.
pub open spec fn purges(
    m: MemoryV,
    queues: Map<QueueV, QueueDefinition>,
    q: QueueV,
    now: i64,
    ids: Seq<ItemId>,
) -> Script<Kept<()>> {
    hold(
        m,
        reads_in::<PurgedRow>(
            SELECT_PURGED@,
            Seq::empty(),
            own(q),
            id_texts(ids),
            RELATIONAL_BATCH as nat,
        ),
        |rows: Seq<PurgedV>|
            hold(
                m,
                retains(q, retention_of(queues, q), rows, now),
                |u: ()|
                    hold(
                        m,
                        deletes_items(q, id_texts(ids)),
                        |v: ()|
                            {
                                let n = all_cleared(m, q, ids);
                                hold(
                                    n,
                                    refreshes(q, purged_groups(rows), now),
                                    |w: ()| Script::Done((n, Ok::<(), ErrorV>(()))),
                                )
                            },
                    ),
            ),
    )
}

/// Removes items.
pub fn apply_purge_sql<T: RelTx>(
    tx: &mut RelSession<T>,
    queues: &Queues,
    memory: &mut DriverMemory,
    shard: &QueueKey,
    now: UtcTimestamp,
    item_ids: &Vec<ItemId>,
) -> (r: EngineResult<()>)
    ensures
        held(
            old(tx).trace(),
            final(tx).trace(),
            purges(old(memory)@, queues@, shard@, nanos(now), item_ids@),
            (final(memory)@, outcome(r)),
        ),
{
    proof {
        lemma_start(tx.trace(), purges(memory@, queues@, shard@, nanos(now), item_ids@));
        assert(""@ =~= Seq::<char>::empty()) by {
            reveal_strlit("");
        }
    }
    let retention_ms = match queues.get(shard) {
        Some(d) => d.client_item_key_retention_ms,
        None => 0,
    };
    let ids = id_strings(item_ids);
    let rows = match query_listed::<T, PurgedRow>(
        tx,
        SELECT_PURGED,
        "",
        &own_params(shard),
        &ids,
        RELATIONAL_BATCH,
    ) {
        Err(e) => return Err(e),
        Ok(v) => v,
    };
    match retain(tx, shard, retention_ms, &rows, ts_nanos(now)) {
        Err(e) => return Err(e),
        Ok(_) => {},
    }
    match delete_all(tx, shard, &ids) {
        Err(e) => return Err(e),
        Ok(_) => {},
    }
    memory.note_cleared(shard, item_ids);
    refresh_group_summaries(tx, shard, &groups_of_purged(&rows), now)
}

/// The one insertion of a replacement.
pub open spec fn replacement_spec<'a>(item: PushItem, seq: u64, now: UtcTimestamp) -> Seq<
    InsertItemSpec<'a>,
> {
    Seq::<InsertItemSpec>::empty().push(InsertItemSpec { item: &item, command_seq: seq, now })
}

/// The summaries after a replacement: those of the groups of both items.
pub open spec fn regroups_replaced(
    m: MemoryV,
    q: QueueV,
    groups: Seq<Seq<char>>,
    group: Option<Seq<char>>,
    now: i64,
) -> Script<Kept<()>> {
    let joins = group is Some && !groups.contains(group->Some_0);
    let n = if joins {
        MemoryV { grouped: m.grouped.insert(q), ..m }
    } else {
        m
    };
    hold(
        n,
        refreshes(
            q,
            if joins {
                groups.push(group->Some_0)
            } else {
                groups
            },
            now,
        ),
        |u: ()| Script::Done((n, Ok::<(), ErrorV>(()))),
    )
}

/// A pending item is superseded by another under the same key.
pub open spec fn replaces(
    m: MemoryV,
    queues: Map<QueueV, QueueDefinition>,
    q: QueueV,
    seq: u64,
    now: UtcTimestamp,
    c: ReplacePendingCommand,
) -> Script<Kept<()>> {
    let n = hint_reset(m, q);
    let id = numeral(c.superseded_item_id as nat);
    hold(
        n,
        drops_index_rows(q, Seq::<Seq<char>>::empty().push(id)),
        |u: ()|
            hold(
                n,
                done(
                    SUPERSEDE@,
                    own(q).push(CellV::Text(id)).push(CellV::Integer(nanos(now))).push(
                        CellV::Integer(seq as i64),
                    ),
                ),
                |v: ()|
                    if !queues.contains_key(q) {
                        Script::Done((n, Err::<(), ErrorV>(ErrorV::NotFound)))
                    } else {
                        hold(
                            n,
                            inserts(
                                queues,
                                queues[q].priority_model,
                                q,
                                replacement_spec(c.replacement, seq, now),
                            ),
                            |base: i64|
                                hold(
                                    n,
                                    if n.grouped.contains(q) {
                                        asks_groups(
                                            q,
                                            Seq::<ItemId>::empty().push(c.superseded_item_id),
                                        )
                                    } else {
                                        Script::Done(Ok(Seq::empty()))
                                    },
                                    |groups: Seq<Seq<char>>|
                                        regroups_replaced(
                                            n,
                                            q,
                                            groups,
                                            opt_text(c.replacement.group_key),
                                            nanos(now),
                                        ),
                                ),
                        )
                    },
            ),
    )
}

fn regroup_replaced<T: RelTx>(
    tx: &mut RelSession<T>,
    memory: &mut DriverMemory,
    shard: &QueueKey,
    groups: Vec<String>,
    group: &Option<String>,
    now: UtcTimestamp,
) -> (r: EngineResult<()>)
    ensures
        held(
            old(tx).trace(),
            final(tx).trace(),
            regroups_replaced(
                old(memory)@,
                shard@,
                texts(groups@),
                opt_text(*group),
                nanos(now),
            ),
            (final(memory)@, outcome(r)),
        ),
{
    proof {
        lemma_start(
            tx.trace(),
            regroups_replaced(memory@, shard@, texts(groups@), opt_text(*group), nanos(now)),
        );
    }
    let mut groups = groups;
    match group {
        Some(g) => {
            if !contains_text(&groups, g.as_str()) {
                memory.join_grouped(shard);
                let ghost before = groups@;
                groups.push(g.clone());
                assert(texts(groups@) =~= texts(before).push(g@));
            }
        },
        None => {},
    }
    refresh_group_summaries(tx, shard, &groups, now)
}

/// Supersedes a pending item by another under the same key.
pub fn apply_replace_sql<T: RelTx + RelCodec>(
    tx: &mut RelSession<T>,
    queues: &Queues,
    memory: &mut DriverMemory,
    shard: &QueueKey,
    seq: u64,
    now: UtcTimestamp,
    c: &ReplacePendingCommand,
) -> (r: EngineResult<()>)
    ensures
        held(
            old(tx).trace(),
            final(tx).trace(),
            replaces(old(memory)@, queues@, shard@, seq, now, *c),
            (final(memory)@, outcome(r)),
        ),
{
    proof {
        lemma_start(tx.trace(), replaces(memory@, queues@, shard@, seq, now, *c));
    }
    reset_claim_scan_hint(memory, shard);
    let id = decimal(c.superseded_item_id);
    let mut ids: Vec<String> = Vec::new();
    ids.push(id.clone());
    assert(texts(ids@) =~= Seq::<Seq<char>>::empty().push(id@));
    match delete_typed_index_rows(tx, shard, &ids) {
        Err(e) => return Err(e),
        Ok(_) => {},
    }
    match rel_done(
        tx,
        SUPERSEDE,
        own_params(shard).text(id.as_str()).number(ts_nanos(now)).number(seq as i64),
    ) {
        Err(e) => return Err(e),
        Ok(_) => {},
    }
    let model = match queues.get(shard) {
        None => return Err(EngineError::NotFound),
        Some(d) => d.priority_model,
    };
    let mut specs: Vec<InsertItemSpec> = Vec::new();
    specs.push(InsertItemSpec { item: &c.replacement, command_seq: seq, now });
    assert(specs@ =~= replacement_spec(c.replacement, seq, now));
    match insert_item_specs(tx, queues, &model, shard, &specs) {
        Err(e) => return Err(e),
        Ok(_) => {},
    }
    let groups = if memory.grouped_shards.contains(shard) {
        let mut old_ids: Vec<ItemId> = Vec::new();
        old_ids.push(c.superseded_item_id);
        assert(old_ids@ =~= Seq::<ItemId>::empty().push(c.superseded_item_id));
        match groups_of(tx, shard, &old_ids) {
            Err(e) => return Err(e),
            Ok(v) => v,
        }
    } else {
        let none: Vec<String> = Vec::new();
        assert(texts(none@) =~= Seq::<Seq<char>>::empty());
        none
    };
    regroup_replaced(tx, memory, shard, groups, &c.replacement.group_key, now)
}

/// Each removed key is retained once, with the item that held it last.
pub proof fn law_retained_keys_are_distinct(rows: Seq<PurgedV>)
    ensures
        forall|i: int, j: int|
            0 <= i < j < retained(rows).len() ==> (#[trigger] retained(rows)[i]).0
                != (#[trigger] retained(rows)[j]).0,
    decreases rows.len(),
{
    if rows.len() > 0 {
        law_retained_keys_are_distinct(rows.drop_last());
        lemma_other_keys(retained(rows.drop_last()), rows.last().client_item_key);
    }
}

proof fn lemma_other_keys(pairs: Seq<(Seq<char>, Seq<char>)>, key: Seq<char>)
    requires
        forall|i: int, j: int|
            0 <= i < j < pairs.len() ==> (#[trigger] pairs[i]).0 != (#[trigger] pairs[j]).0,
    ensures
        forall|i: int|
            0 <= i < other_keys(pairs, key).len() ==> (#[trigger] other_keys(pairs, key)[i]).0
                != key && pairs.contains(other_keys(pairs, key)[i]),
        forall|i: int, j: int|
            0 <= i < j < other_keys(pairs, key).len() ==> (#[trigger] other_keys(pairs, key)[i]).0
                != (#[trigger] other_keys(pairs, key)[j]).0,
    decreases pairs.len(),
{
    if pairs.len() > 0 {
        let rest = pairs.drop_last();
        lemma_other_keys(rest, key);
        assert forall|i: int| 0 <= i < other_keys(rest, key).len() implies pairs.contains(
            #[trigger] other_keys(rest, key)[i],
        ) && other_keys(rest, key)[i].0 != pairs.last().0 by {
            let k = rest.index_of(other_keys(rest, key)[i]);
            assert(rest.contains(other_keys(rest, key)[i]));
            assert(pairs[k] == other_keys(rest, key)[i]);
            assert(pairs[pairs.len() - 1] == pairs.last());
        }
        assert(pairs[pairs.len() - 1] == pairs.last());
    }
}

} // verus!
