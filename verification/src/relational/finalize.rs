//! Outcomes of leased items, in the store.

use crate::history::law_numerals_read_back;
use crate::model::series_over;
use crate::order::{OrdSet, OrderKey, Standing, lemma_listing_exists, listing_of};
use crate::relational::codec::{id_strings, id_texts, nanos, opt_nanos, state_name, state_str, ts_nanos, ts_nanos_opt};
use crate::relational::cohorts::{Queues, asks_members, cohort_item_ids, cohort_retention_until, kept_until};
use crate::relational::exec::{RelSession, RelTx, rel_done, rel_exec};
use crate::relational::lists::{FromRow, contents, exec_items_in, list_sql, listed, on_items, query_listed, query_rows, reads, reads_in};
use crate::relational::memory::{DriverMemory, Kept, MemoryV, TokenOp, TokenV, hint_reset, hold, noted, pass, plain};
use crate::relational::query::{RELATIONAL_BATCH, own, own_params, reset_claim_scan_hint};
use crate::relational::scan::{asks_range, fifo_rowid_range_for_id_strings};
use crate::relational::script::{Script, chain, done, each, group_talk, held, lemma_start, reached, run};
use crate::relational::summary::{RefV, adds, apply_group_summary_add, groups_in, load_grouped_items, loads_grouped, unique_groups};
use crate::relational::tokens::{ids_of_outcomes, outcome_ids};
use crate::relational::value::{CellV, Params, RelRow, column, flag_cell, int_cell, text_cells};
use crate::text::{decimal, numeral, same_text, texts};
use crate::types::{CohortFinalizeCommand, CommandPosition, EngineError, EngineResult, ErrorV, FinalizeKind, FinalizeOutcome, ItemId, ItemState, QueueDefinition, QueueKey, QueueV, RecurrenceMode, RecurrencePolicy, UtcTimestamp, is_retry_exhausted, outcome};
use vstd::prelude::*;
use vstd::string::*;

verus! {

broadcast use group_talk;

pub const DELETE_LEASE_BEARERS: &'static str = "DELETE FROM fireweed_lease_bearers WHERE tenant_id=? AND queue_id=? AND item_id IN";

pub const SELECT_RETRIES: &'static str = "SELECT item_id, retry_count, max_attempts FROM fireweed_items \
                     WHERE tenant_id=? AND queue_id=? AND item_id IN";

pub const FINALIZE_SET: &'static str = "UPDATE fireweed_items SET lifecycle_state=?, lease_token_hash=NULL, \
                 lease_expires_at=NULL, worker_id=NULL, fenced=0, item_version=item_version+1, \
                 retry_count=CASE WHEN ? THEN 0 ELSE retry_count END, terminal_at=?, \
                 terminal_command_epoch=?, updated_at=?, last_command_sequence=? \
                 WHERE tenant_id=? AND queue_id=? AND item_id IN";

pub const FINALIZE_RANGE: &'static str = "UPDATE fireweed_items SET lifecycle_state=?1, lease_token_hash=NULL, \
                         lease_expires_at=NULL, worker_id=NULL, fenced=0, item_version=item_version+1, \
                         retry_count=CASE WHEN ?2 THEN 0 ELSE retry_count END, terminal_at=?3, \
                         terminal_command_epoch=?4, updated_at=?5, last_command_sequence=?6 \
                         WHERE tenant_id=?7 AND queue_id=?8 AND rowid BETWEEN ?9 AND ?10";

pub const RESCHEDULE: &'static str = "UPDATE fireweed_items SET not_before=?, eligible_since=? \
                     WHERE tenant_id=? AND queue_id=? AND item_id IN";

pub const SELECT_COHORT_RETRIES: &'static str = "SELECT retry_count,max_attempts FROM fireweed_items \
                     WHERE tenant_id=? AND queue_id=? AND item_id IN";

pub const SETTLE_COHORT: &'static str = "UPDATE fireweed_cohorts SET state=?4, cohort_lease_token_hash=NULL, retention_until=?5 \
                 WHERE tenant_id=?1 AND queue_id=?2 AND cohort_id=?3";

/// How often an item was tried, and how often it may be.
pub struct RetryRow {
    pub item_id: String,
    pub attempts: i64,
    pub max_attempts: i64,
}

impl FromRow for RetryRow {
    type V = (Seq<char>, i64, i64);

    open spec fn content(&self) -> (Seq<char>, i64, i64) {
        (self.item_id@, self.attempts, self.max_attempts)
    }

    open spec fn row_reading(row: Seq<CellV>) -> Result<(Seq<char>, i64, i64), ErrorV> {
        match column::<String>(row, 0) {
            Err(e) => Err(e),
            Ok(id) => match column::<i64>(row, 1) {
                Err(e) => Err(e),
                Ok(attempts) => match column::<i64>(row, 2) {
                    Err(e) => Err(e),
                    Ok(max) => Ok((id, attempts, max)),
                },
            },
        }
    }

    fn from_row(row: &RelRow) -> (r: EngineResult<RetryRow>) {
        let item_id = match row.get::<String>(0) {
            Err(e) => return Err(e),
            Ok(v) => v,
        };
        let attempts = match row.get::<i64>(1) {
            Err(e) => return Err(e),
            Ok(v) => v,
        };
        let max_attempts = match row.get::<i64>(2) {
            Err(e) => return Err(e),
            Ok(v) => v,
        };
        Ok(RetryRow { item_id, attempts, max_attempts })
    }
}

/// What was read last of an item's attempts.
pub open spec fn retry_of(rows: Seq<(Seq<char>, i64, i64)>, id: Seq<char>) -> Option<(i64, i64)>
    decreases rows.len(),
{
    if rows.len() == 0 {
        None
    } else if rows.last().0 == id {
        Some((rows.last().1, rows.last().2))
    } else {
        retry_of(rows.drop_last(), id)
    }
}

fn find_retry(rows: &Vec<RetryRow>, id: &str) -> (r: Option<(i64, i64)>)
    ensures
        r == retry_of(contents(rows@), id@),
{
    let ghost all = contents(rows@);
    let mut i: usize = rows.len();
    assert(all.take(i as int) =~= all);
    while i > 0
        invariant
            i <= rows@.len(),
            all == contents(rows@),
            retry_of(all, id@) == retry_of(all.take(i as int), id@),
        decreases i,
    {
        proof {
            assert(all.take(i as int).drop_last() =~= all.take(i as int - 1));
            assert(all.take(i as int).last() == rows@[i as int - 1].content());
        }
        if same_text(rows[i - 1].item_id.as_str(), id) {
            return Some((rows[i - 1].attempts, rows[i - 1].max_attempts));
        }
        i = i - 1;
    }
    None
}

/// All deliveries of an item are used up.
pub open spec fn used_up(attempts: i64, max: i64) -> bool {
    (attempts as u32) >= (max as u32)
}

/// The recurrence of a queue, where its definition is known.
pub open spec fn recurrence_of(queues: Map<QueueV, QueueDefinition>, q: QueueV) -> Option<
    RecurrencePolicy,
> {
    if queues.contains_key(q) {
        Some(queues[q].recurrence)
    } else {
        None
    }
}

fn find_recurrence(queues: &Queues, shard: &QueueKey) -> (r: Option<RecurrencePolicy>)
    ensures
        r == recurrence_of(queues@, shard@),
{
    match queues.get(shard) {
        Some(d) => Some(d.recurrence),
        None => None,
    }
}

/// A series whose next time would lie past its end.
pub open spec fn ended(rec: Option<RecurrencePolicy>, o: FinalizeOutcome) -> bool {
    o.kind is Rearm && rec is Some && series_over(rec->Some_0, o.not_before)
}

fn has_ended(rec: Option<RecurrencePolicy>, o: &FinalizeOutcome) -> (r: bool)
    requires
        o.kind is Rearm,
    ensures
        r == ended(rec, *o),
{
    match rec {
        Some(p) => match (o.not_before, p.until, p.mode) {
            (Some(nb), Some(until), RecurrenceMode::Recurring) => until.before(&nb),
            _ => false,
        },
        None => false,
    }
}

/// The state that an outcome leads to. A retry fails once all deliveries are used up; a series that
/// is over completes; a sealed state that differs is a conflict.
pub open spec fn state_after(
    rec: Option<RecurrencePolicy>,
    o: FinalizeOutcome,
    retries: Seq<(Seq<char>, i64, i64)>,
) -> Result<ItemState, ErrorV> {
    let computed = match o.kind {
        FinalizeKind::Complete => Ok(ItemState::Complete),
        FinalizeKind::Fail => Ok(ItemState::Failed),
        FinalizeKind::Retry => match retry_of(retries, numeral(o.item_id as nat)) {
            None => Err(ErrorV::NotFound),
            Some(x) => Ok(
                if used_up(x.0, x.1) {
                    ItemState::Failed
                } else {
                    ItemState::Pending
                },
            ),
        },
        FinalizeKind::Release => Ok(ItemState::Pending),
        FinalizeKind::Rearm => Ok(
            if ended(rec, o) {
                ItemState::Complete
            } else {
                ItemState::Pending
            },
        ),
    };
    match computed {
        Err(e) => Err(e),
        Ok(s) => if o.applied_state is Some && o.applied_state->Some_0 != s {
            Err(ErrorV::Conflict)
        } else {
            Ok(s)
        },
    }
}

fn find_state_after(
    rec: Option<RecurrencePolicy>,
    o: &FinalizeOutcome,
    retries: &Vec<RetryRow>,
) -> (r: EngineResult<ItemState>)
    ensures
        outcome(r) == state_after(rec, *o, contents(retries@)),
{
    let computed = match o.kind {
        FinalizeKind::Complete => ItemState::Complete,
        FinalizeKind::Fail => ItemState::Failed,
        FinalizeKind::Retry => match find_retry(retries, decimal(o.item_id).as_str()) {
            None => return Err(EngineError::NotFound),
            Some(x) => if is_retry_exhausted(x.0 as u32, x.1 as u32) {
                ItemState::Failed
            } else {
                ItemState::Pending
            },
        },
        FinalizeKind::Release => ItemState::Pending,
        FinalizeKind::Rearm => if has_ended(rec, o) {
            ItemState::Complete
        } else {
            ItemState::Pending
        },
    };
    match o.applied_state {
        Some(sealed) => {
            if sealed != computed {
                return Err(EngineError::Conflict);
            }
        },
        None => {},
    }
    Ok(computed)
}

/// Items by what becomes of them.
pub struct Buckets {
    pub complete: Vec<String>,
    pub failed: Vec<String>,
    pub pending: Vec<String>,
    pub rearmed: Vec<String>,
    /// Retried items that wait, by when they may run.
    pub backoff: Vec<(i64, String)>,
    /// Rearmed items by when they may run.
    pub schedule: Vec<(Option<i64>, String)>,
}

pub ghost struct BucketsV {
    pub complete: Seq<Seq<char>>,
    pub failed: Seq<Seq<char>>,
    pub pending: Seq<Seq<char>>,
    pub rearmed: Seq<Seq<char>>,
    pub backoff: Seq<(i64, Seq<char>)>,
    pub schedule: Seq<(Option<i64>, Seq<char>)>,
}

/// Texts under keys.
pub open spec fn keyed_v<K: OrderKey>(v: Seq<(K, String)>) -> Seq<(K::V, Seq<char>)> {
    v.map_values(|x: (K, String)| (x.0.kv(), x.1@))
}

impl Buckets {
    pub open spec fn view(&self) -> BucketsV {
        BucketsV {
            complete: texts(self.complete@),
            failed: texts(self.failed@),
            pending: texts(self.pending@),
            rearmed: texts(self.rearmed@),
            backoff: keyed_v(self.backoff@),
            schedule: keyed_v(self.schedule@),
        }
    }
}

pub open spec fn no_buckets() -> BucketsV {
    BucketsV {
        complete: Seq::empty(),
        failed: Seq::empty(),
        pending: Seq::empty(),
        rearmed: Seq::empty(),
        backoff: Seq::empty(),
        schedule: Seq::empty(),
    }
}

/// An item goes where its next state sends it.
pub open spec fn bucketed(b: BucketsV, o: FinalizeOutcome, state: ItemState) -> BucketsV {
    let id = numeral(o.item_id as nat);
    match state {
        ItemState::Complete => BucketsV { complete: b.complete.push(id), ..b },
        ItemState::Failed => BucketsV { failed: b.failed.push(id), ..b },
        _ => if o.kind is Rearm {
            BucketsV {
                rearmed: b.rearmed.push(id),
                schedule: b.schedule.push((opt_nanos(o.not_before), id)),
                ..b
            }
        } else if o.kind is Retry && o.not_before is Some {
            BucketsV {
                pending: b.pending.push(id),
                backoff: b.backoff.push((nanos(o.not_before->Some_0), id)),
                ..b
            }
        } else {
            BucketsV { pending: b.pending.push(id), ..b }
        },
    }
}

/// Each outcome in turn; the token of each settled item is dropped.
pub open spec fn sorted_out(
    m: MemoryV,
    rec: Option<RecurrencePolicy>,
    q: QueueV,
    outcomes: Seq<FinalizeOutcome>,
    retries: Seq<(Seq<char>, i64, i64)>,
) -> Kept<BucketsV>
    decreases outcomes.len(),
{
    if outcomes.len() == 0 {
        (m, Ok(no_buckets()))
    } else {
        let (n, r) = sorted_out(m, rec, q, outcomes.drop_last(), retries);
        match r {
            Err(e) => (n, Err(e)),
            Ok(b) => match state_after(rec, outcomes.last(), retries) {
                Err(e) => (n, Err(e)),
                Ok(s) => (
                    noted(n, TokenV::Clear(q, outcomes.last().item_id)),
                    Ok(bucketed(b, outcomes.last(), s)),
                ),
            },
        }
    }
}

proof fn lemma_sorted_stops(
    m: MemoryV,
    rec: Option<RecurrencePolicy>,
    q: QueueV,
    outcomes: Seq<FinalizeOutcome>,
    retries: Seq<(Seq<char>, i64, i64)>,
    n: int,
)
    requires
        0 <= n <= outcomes.len(),
        sorted_out(m, rec, q, outcomes.take(n), retries).1 is Err,
    ensures
        sorted_out(m, rec, q, outcomes, retries) == sorted_out(m, rec, q, outcomes.take(n), retries),
    decreases outcomes.len() - n,
{
    if n == outcomes.len() {
        assert(outcomes.take(n) =~= outcomes);
    } else {
        assert(outcomes.take(n + 1).drop_last() =~= outcomes.take(n));
        lemma_sorted_stops(m, rec, q, outcomes, retries, n + 1);
    }
}

fn push_id(list: &mut Vec<String>, id: ItemId)
    ensures
        texts(final(list)@) == texts(old(list)@).push(numeral(id as nat)),
{
    let ghost before = list@;
    let t = decimal(id);
    list.push(t);
    assert(texts(list@) =~= texts(before).push(t@));
}

fn push_keyed<K: OrderKey>(list: &mut Vec<(K, String)>, key: K, id: ItemId)
    ensures
        keyed_v(final(list)@) == keyed_v(old(list)@).push((key.kv(), numeral(id as nat))),
{
    let ghost before = list@;
    let t = decimal(id);
    list.push((key, t));
    assert(keyed_v(list@) =~= keyed_v(before).push((key.kv(), t@)));
}

fn put_in_bucket(b: &mut Buckets, o: &FinalizeOutcome, state: ItemState)
    ensures
        final(b)@ == bucketed(old(b)@, *o, state),
{
    match state {
        ItemState::Complete => push_id(&mut b.complete, o.item_id),
        ItemState::Failed => push_id(&mut b.failed, o.item_id),
        _ => match o.kind {
            FinalizeKind::Rearm => {
                push_id(&mut b.rearmed, o.item_id);
                push_keyed(&mut b.schedule, ts_nanos_opt(o.not_before), o.item_id);
            },
            FinalizeKind::Retry => {
                push_id(&mut b.pending, o.item_id);
                match o.not_before {
                    Some(nb) => push_keyed(&mut b.backoff, ts_nanos(nb), o.item_id),
                    None => {},
                }
            },
            _ => push_id(&mut b.pending, o.item_id),
        },
    }
}

fn sort_out(
    memory: &mut DriverMemory,
    rec: Option<RecurrencePolicy>,
    shard: &QueueKey,
    outcomes: &Vec<FinalizeOutcome>,
    retries: &Vec<RetryRow>,
) -> (r: EngineResult<Buckets>)
    ensures
        (final(memory)@, (match r {
            Ok(b) => Ok(b@),
            Err(e) => Err(e@),
        })) == sorted_out(old(memory)@, rec, shard@, outcomes@, contents(retries@)),
{
    let ghost start = memory@;
    let ghost info = contents(retries@);
    let mut b = Buckets {
        complete: Vec::new(),
        failed: Vec::new(),
        pending: Vec::new(),
        rearmed: Vec::new(),
        backoff: Vec::new(),
        schedule: Vec::new(),
    };
    let mut i: usize = 0;
    proof {
        assert(outcomes@.take(0) =~= Seq::<FinalizeOutcome>::empty());
        assert(texts(b.complete@) =~= Seq::<Seq<char>>::empty());
        assert(texts(b.failed@) =~= Seq::<Seq<char>>::empty());
        assert(texts(b.pending@) =~= Seq::<Seq<char>>::empty());
        assert(texts(b.rearmed@) =~= Seq::<Seq<char>>::empty());
        assert(keyed_v(b.backoff@) =~= Seq::<(i64, Seq<char>)>::empty());
        assert(keyed_v(b.schedule@) =~= Seq::<(Option<i64>, Seq<char>)>::empty());
    }
    while i < outcomes.len()
        invariant
            i <= outcomes@.len(),
            start == old(memory)@,
            info == contents(retries@),
            sorted_out(start, rec, shard@, outcomes@.take(i as int), info) == (memory@, Ok::<
                BucketsV,
                ErrorV,
            >(b@)),
        decreases outcomes@.len() - i,
    {
        proof {
            assert(outcomes@.take(i as int + 1).drop_last() =~= outcomes@.take(i as int));
            assert(outcomes@.take(i as int + 1).last() == outcomes@[i as int]);
        }
        match find_state_after(rec, &outcomes[i], retries) {
            Err(e) => {
                proof {
                    lemma_sorted_stops(start, rec, shard@, outcomes@, info, i as int + 1);
                }
                return Err(e);
            },
            Ok(s) => {
                put_in_bucket(&mut b, &outcomes[i], s);
                memory.note(TokenOp::Clear(shard.duplicate(), outcomes[i].item_id));
            },
        }
        i = i + 1;
    }
    assert(outcomes@.take(i as int) =~= outcomes@);
    Ok(b)
}

/// The keys of a list.
pub open spec fn key_set<K>(list: Seq<(K, Seq<char>)>) -> Set<K> {
    Set::new(|k: K| exists|i: int| 0 <= i < list.len() && (#[trigger] list[i]).0 == k)
}

/// The texts under a key, in order.
pub open spec fn under<K>(list: Seq<(K, Seq<char>)>, k: K) -> Seq<Seq<char>>
    decreases list.len(),
{
    if list.len() == 0 {
        Seq::empty()
    } else if list.last().0 == k {
        under(list.drop_last(), k).push(list.last().1)
    } else {
        under(list.drop_last(), k)
    }
}

fn keys_in<K: OrderKey + Copy>(list: &Vec<(K, String)>) -> (r: OrdSet<K>)
    ensures
        r@ == key_set(keyed_v(list@)),
{
    let ghost all = keyed_v(list@);
    let mut out: OrdSet<K> = OrdSet::new();
    let mut i: usize = 0;
    assert(out@ =~= key_set(all.take(0)));
    while i < list.len()
        invariant
            i <= list@.len(),
            all == keyed_v(list@),
            out@ == key_set(all.take(i as int)),
        decreases list@.len() - i,
    {
        let ghost before = out@;
        out.insert(list[i].0);
        proof {
            let t = all.take(i as int + 1);
            assert(all[i as int].0 == list@[i as int].0.kv());
            assert(out@ =~= key_set(t)) by {
                assert forall|k: K::V| out@.contains(k) <==> key_set(t).contains(k) by {
                    if before.contains(k) {
                        let j = choose|j: int|
                            0 <= j < all.take(i as int).len() && (#[trigger] all.take(
                                i as int,
                            )[j]).0 == k;
                        assert(t[j].0 == k);
                    }
                    if k == all[i as int].0 {
                        assert(t[i as int].0 == k);
                    }
                    if key_set(t).contains(k) {
                        let j = choose|j: int| 0 <= j < t.len() && (#[trigger] t[j]).0 == k;
                        if j < i {
                            assert(all.take(i as int)[j].0 == k);
                        }
                    }
                }
            }
        }
        i = i + 1;
    }
    assert(all.take(i as int) =~= all);
    out
}

fn texts_under<K: OrderKey>(list: &Vec<(K, String)>, key: &K) -> (r: Vec<String>)
    ensures
        texts(r@) == under(keyed_v(list@), key.kv()),
{
    let ghost all = keyed_v(list@);
    let mut out: Vec<String> = Vec::new();
    let mut i: usize = 0;
    assert(all.take(0) =~= Seq::<(K::V, Seq<char>)>::empty());
    assert(texts(out@) =~= Seq::<Seq<char>>::empty());
    while i < list.len()
        invariant
            i <= list@.len(),
            all == keyed_v(list@),
            texts(out@) == under(all.take(i as int), key.kv()),
        decreases list@.len() - i,
    {
        proof {
            assert(all.take(i as int + 1).drop_last() =~= all.take(i as int));
            assert(all.take(i as int + 1).last() == (list@[i as int].0.kv(), list@[i as int].1@));
        }
        match list[i].0.standing(key) {
            Standing::Same => {
                let ghost before = out@;
                out.push(list[i].1.clone());
                assert(texts(out@) =~= texts(before).push(list@[i as int].1@));
            },
            _ => {},
        }
        i = i + 1;
    }
    assert(all.take(i as int) =~= all);
    out
}

/// What a settled item's row gets.
pub struct Settling {
    pub state: ItemState,
    pub reset: bool,
    pub terminal_at: Option<i64>,
    pub terminal_epoch: Option<i64>,
}

/// The parameters of a settling before those of the queue.
pub open spec fn settling_cells(s: Settling, now: i64, seq: u64) -> Seq<CellV> {
    Seq::<CellV>::empty().push(CellV::Text(state_name(s.state))).push(flag_cell(s.reset)).push(
        int_cell(s.terminal_at),
    ).push(int_cell(s.terminal_epoch)).push(CellV::Integer(now)).push(CellV::Integer(seq as i64))
}

fn settling_params(s: &Settling, now_n: i64, seq: u64) -> (r: Params)
    ensures
        r@ == settling_cells(*s, now_n, seq),
{
    Params::new().text(state_str(s.state)).flag(s.reset).maybe_int(s.terminal_at).maybe_int(
        s.terminal_epoch,
    ).number(now_n).number(seq as i64)
}

/// Rows of a gapless stretch are settled, all of them.
pub open spec fn settles_range(
    q: QueueV,
    s: Settling,
    n: nat,
    now: i64,
    seq: u64,
    span: (i64, i64),
) -> Script<Result<(), ErrorV>> {
    chain(
        run(
            FINALIZE_RANGE@,
            settling_cells(s, now, seq).push(CellV::Text(q.tenant_id)).push(
                CellV::Text(q.queue_id),
            ).push(CellV::Integer(span.0)).push(CellV::Integer(span.1)),
        ),
        |changed: usize|
            Script::Done(
                if changed != n {
                    Err::<(), ErrorV>(
                        ErrorV::Storage(
                            "sqlite fifo finalize range update changed an unexpected row count"@,
                        ),
                    )
                } else {
                    Ok(())
                },
            ),
    )
}

/// The items of a bucket are settled: in a plain queue by their stretch of rows, where they fill one.
pub open spec fn settles(
    plain: bool,
    q: QueueV,
    s: Settling,
    ids: Seq<Seq<char>>,
    now: i64,
    seq: u64,
) -> Script<Result<(), ErrorV>> {
    if plain && s.state.terminal() {
        chain(
            asks_range(q, ids, Some("Leased"@)),
            |range: Option<(i64, i64)>|
                match range {
                    Some(span) => settles_range(q, s, ids.len(), now, seq, span),
                    None => on_items(FINALIZE_SET@, settling_cells(s, now, seq), q, ids),
                },
        )
    } else {
        on_items(FINALIZE_SET@, settling_cells(s, now, seq), q, ids)
    }
}

fn settle_bucket<T: RelTx>(
    tx: &mut RelSession<T>,
    fifo: bool,
    shard: &QueueKey,
    s: &Settling,
    ids: &Vec<String>,
    now_n: i64,
    seq: u64,
) -> (r: EngineResult<()>)
    ensures
        held(
            old(tx).trace(),
            final(tx).trace(),
            settles(fifo, shard@, *s, texts(ids@), now_n, seq),
            outcome(r),
        ),
{
    proof {
        lemma_start(tx.trace(), settles(fifo, shard@, *s, texts(ids@), now_n, seq));
        assert(texts(ids@).len() == ids@.len());
    }
    if fifo && s.state.is_terminal() {
        match fifo_rowid_range_for_id_strings(tx, shard, ids, Some("Leased")) {
            Err(e) => return Err(e),
            Ok(Some(span)) => {
                let params = settling_params(s, now_n, seq).text(shard.tenant_id.as_str()).text(
                    shard.queue_id.as_str(),
                ).number(span.0).number(span.1);
                return match rel_exec(tx, FINALIZE_RANGE, params) {
                    Err(e) => Err(e),
                    Ok(changed) => if changed != ids.len() {
                        Err(
                            EngineError::Storage(
                                "sqlite fifo finalize range update changed an unexpected row count".to_owned(),
                            ),
                        )
                    } else {
                        Ok(())
                    },
                };
            },
            Ok(None) => {},
        }
    }
    exec_items_in(tx, FINALIZE_SET, settling_params(s, now_n, seq), shard, ids)
}

/// The four buckets in turn.
pub open spec fn settles_all(
    plain: bool,
    q: QueueV,
    b: BucketsV,
    now: i64,
    epoch: u64,
    seq: u64,
) -> Script<Result<(), ErrorV>> {
    let over = |s: ItemState|
        Settling {
            state: s,
            reset: false,
            terminal_at: Some(now),
            terminal_epoch: Some(epoch as i64),
        };
    let back = |reset: bool|
        Settling {
            state: ItemState::Pending,
            reset,
            terminal_at: None,
            terminal_epoch: None,
        };
    chain(
        settles(plain, q, over(ItemState::Complete), b.complete, now, seq),
        |u: ()|
            chain(
                settles(plain, q, over(ItemState::Failed), b.failed, now, seq),
                |v: ()|
                    chain(
                        settles(plain, q, back(false), b.pending, now, seq),
                        |w: ()| settles(plain, q, back(true), b.rearmed, now, seq),
                    ),
            ),
    )
}

fn settle_all<T: RelTx>(
    tx: &mut RelSession<T>,
    fifo: bool,
    shard: &QueueKey,
    b: &Buckets,
    now_n: i64,
    epoch: u64,
    seq: u64,
) -> (r: EngineResult<()>)
    ensures
        held(
            old(tx).trace(),
            final(tx).trace(),
            settles_all(fifo, shard@, b@, now_n, epoch, seq),
            outcome(r),
        ),
{
    proof {
        lemma_start(tx.trace(), settles_all(fifo, shard@, b@, now_n, epoch, seq));
    }
    let complete = Settling {
        state: ItemState::Complete,
        reset: false,
        terminal_at: Some(now_n),
        terminal_epoch: Some(epoch as i64),
    };
    match settle_bucket(tx, fifo, shard, &complete, &b.complete, now_n, seq) {
        Err(e) => return Err(e),
        Ok(_) => {},
    }
    let failed = Settling {
        state: ItemState::Failed,
        reset: false,
        terminal_at: Some(now_n),
        terminal_epoch: Some(epoch as i64),
    };
    match settle_bucket(tx, fifo, shard, &failed, &b.failed, now_n, seq) {
        Err(e) => return Err(e),
        Ok(_) => {},
    }
    let pending = Settling {
        state: ItemState::Pending,
        reset: false,
        terminal_at: None,
        terminal_epoch: None,
    };
    match settle_bucket(tx, fifo, shard, &pending, &b.pending, now_n, seq) {
        Err(e) => return Err(e),
        Ok(_) => {},
    }
    let rearmed = Settling {
        state: ItemState::Pending,
        reset: true,
        terminal_at: None,
        terminal_epoch: None,
    };
    settle_bucket(tx, fifo, shard, &rearmed, &b.rearmed, now_n, seq)
}

/// Retried items wait until their time.
pub open spec fn backs_off(q: QueueV, list: Seq<(i64, Seq<char>)>) -> spec_fn(i64) -> Script<
    Result<(), ErrorV>,
> {
    |nb: i64|
        on_items(
            RESCHEDULE@,
            Seq::<CellV>::empty().push(CellV::Integer(nb)).push(CellV::Integer(nb)),
            q,
            under(list, nb),
        )
}

/// When a rearmed item may be claimed: at its time, but not before now.
pub open spec fn rearmed_since(nb: Option<i64>, now: i64) -> i64 {
    match nb {
        Some(t) => if t > now {
            t
        } else {
            now
        },
        None => now,
    }
}

/// Rearmed items get their new schedule.
pub open spec fn rearms(q: QueueV, list: Seq<(Option<i64>, Seq<char>)>, now: i64) -> spec_fn(
    Option<i64>,
) -> Script<Result<(), ErrorV>> {
    |nb: Option<i64>|
        on_items(
            RESCHEDULE@,
            Seq::<CellV>::empty().push(int_cell(nb)).push(CellV::Integer(rearmed_since(nb, now))),
            q,
            under(list, nb),
        )
}

/// The schedules of the items that go back, by time.
pub open spec fn reschedules(q: QueueV, b: BucketsV, now: i64) -> Script<Result<(), ErrorV>> {
    chain(
        each(listing_of::<i64>(key_set(b.backoff)), backs_off(q, b.backoff)),
        |u: ()|
            each(
                listing_of::<Option<i64>>(key_set(b.schedule)),
                rearms(q, b.schedule, now),
            ),
    )
}

fn back_off<T: RelTx>(tx: &mut RelSession<T>, shard: &QueueKey, list: &Vec<(i64, String)>) -> (r:
    EngineResult<()>)
    ensures
        held(
            old(tx).trace(),
            final(tx).trace(),
            each(
                listing_of::<i64>(key_set(keyed_v(list@))),
                backs_off(shard@, keyed_v(list@)),
            ),
            outcome(r),
        ),
{
    let keys = keys_in(list);
    let ghost all = listing_of::<i64>(key_set(keyed_v(list@)));
    let ghost f = backs_off(shard@, keyed_v(list@));
    let ghost prog = each(all, f);
    let ghost start = tx.trace();
    let n = keys.len();
    let mut i: usize = 0;
    proof {
        lemma_start(start, prog);
        assert(all.skip(0) =~= all);
    }
    while i < n
        invariant
            i <= n,
            n == all.len(),
            all == keys.listing(),
            all == listing_of::<i64>(key_set(keyed_v(list@))),
            start == old(tx).trace(),
            f == backs_off(shard@, keyed_v(list@)),
            prog == each(all, f),
            reached(start, tx.trace(), prog, each(all.skip(i as int), f)),
        decreases n - i,
    {
        proof {
            assert(all.skip(i as int)[0] == all[i as int]);
            assert(all.skip(i as int).drop_first() =~= all.skip(i as int + 1));
        }
        let nb = *keys.at(i);
        let ids = texts_under(list, &nb);
        match exec_items_in(tx, RESCHEDULE, Params::new().number(nb).number(nb), shard, &ids) {
            Err(e) => return Err(e),
            Ok(_) => {},
        }
        i = i + 1;
    }
    assert(all.skip(i as int) =~= Seq::<i64>::empty());
    Ok(())
}

fn rearm<T: RelTx>(
    tx: &mut RelSession<T>,
    shard: &QueueKey,
    list: &Vec<(Option<i64>, String)>,
    now_n: i64,
) -> (r: EngineResult<()>)
    ensures
        held(
            old(tx).trace(),
            final(tx).trace(),
            each(
                listing_of::<Option<i64>>(key_set(keyed_v(list@))),
                rearms(shard@, keyed_v(list@), now_n),
            ),
            outcome(r),
        ),
{
    let keys = keys_in(list);
    let ghost all = listing_of::<Option<i64>>(key_set(keyed_v(list@)));
    let ghost f = rearms(shard@, keyed_v(list@), now_n);
    let ghost prog = each(all, f);
    let ghost start = tx.trace();
    let n = keys.len();
    let mut i: usize = 0;
    proof {
        lemma_start(start, prog);
        assert(all.skip(0) =~= all);
    }
    while i < n
        invariant
            i <= n,
            n == all.len(),
            all == keys.listing(),
            all == listing_of::<Option<i64>>(key_set(keyed_v(list@))),
            start == old(tx).trace(),
            f == rearms(shard@, keyed_v(list@), now_n),
            prog == each(all, f),
            reached(start, tx.trace(), prog, each(all.skip(i as int), f)),
        decreases n - i,
    {
        proof {
            assert(all.skip(i as int)[0] == all[i as int]);
            assert(all.skip(i as int).drop_first() =~= all.skip(i as int + 1));
        }
        let nb = *keys.at(i);
        assert(nb.kv() == nb);
        let ids = texts_under(list, &nb);
        let since = match nb {
            Some(t) => if t > now_n {
                t
            } else {
                now_n
            },
            None => now_n,
        };
        match exec_items_in(
            tx,
            RESCHEDULE,
            Params::new().maybe_int(nb).number(since),
            shard,
            &ids,
        ) {
            Err(e) => return Err(e),
            Ok(_) => {},
        }
        i = i + 1;
    }
    assert(all.skip(i as int) =~= Seq::<Option<i64>>::empty());
    Ok(())
}

/// Some item goes back among the eligible.
pub open spec fn reenters(rec: Option<RecurrencePolicy>, o: Seq<FinalizeOutcome>) -> bool {
    exists|i: int| 0 <= i < o.len() && goes_back(rec, #[trigger] o[i])
}

/// The outcome lets an item go back, rather than end.
pub open spec fn goes_back(rec: Option<RecurrencePolicy>, o: FinalizeOutcome) -> bool {
    o.kind is Retry || o.kind is Release || (o.kind is Rearm && !ended(rec, o))
}

fn some_reenters(rec: Option<RecurrencePolicy>, outcomes: &Vec<FinalizeOutcome>) -> (r: bool)
    ensures
        r == reenters(rec, outcomes@),
{
    let mut i: usize = 0;
    while i < outcomes.len()
        invariant
            i <= outcomes@.len(),
            forall|j: int| 0 <= j < i ==> !goes_back(rec, #[trigger] outcomes@[j]),
        decreases outcomes@.len() - i,
    {
        let back = match outcomes[i].kind {
            FinalizeKind::Retry => true,
            FinalizeKind::Release => true,
            FinalizeKind::Rearm => !has_ended(rec, &outcomes[i]),
            _ => false,
        };
        if back {
            assert(goes_back(rec, outcomes@[i as int]));
            return true;
        }
        i = i + 1;
    }
    false
}

/// The items that are pending again.
pub open spec fn back_ids(
    rec: Option<RecurrencePolicy>,
    o: Seq<FinalizeOutcome>,
    retries: Seq<(Seq<char>, i64, i64)>,
) -> Seq<ItemId>
    decreases o.len(),
{
    if o.len() == 0 {
        Seq::empty()
    } else if state_after(rec, o.last(), retries) == Ok::<ItemState, ErrorV>(ItemState::Pending) {
        back_ids(rec, o.drop_last(), retries).push(o.last().item_id)
    } else {
        back_ids(rec, o.drop_last(), retries)
    }
}

fn find_back_ids(
    rec: Option<RecurrencePolicy>,
    outcomes: &Vec<FinalizeOutcome>,
    retries: &Vec<RetryRow>,
) -> (r: Vec<ItemId>)
    ensures
        r@ == back_ids(rec, outcomes@, contents(retries@)),
{
    let ghost info = contents(retries@);
    let mut out: Vec<ItemId> = Vec::new();
    let mut i: usize = 0;
    assert(outcomes@.take(0) =~= Seq::<FinalizeOutcome>::empty());
    while i < outcomes.len()
        invariant
            i <= outcomes@.len(),
            info == contents(retries@),
            out@ == back_ids(rec, outcomes@.take(i as int), info),
        decreases outcomes@.len() - i,
    {
        proof {
            assert(outcomes@.take(i as int + 1).drop_last() =~= outcomes@.take(i as int));
            assert(outcomes@.take(i as int + 1).last() == outcomes@[i as int]);
        }
        match find_state_after(rec, &outcomes[i], retries) {
            Ok(ItemState::Pending) => out.push(outcomes[i].item_id),
            _ => {},
        }
        i = i + 1;
    }
    assert(outcomes@.take(i as int) =~= outcomes@);
    out
}

/// The retried items.
pub open spec fn retried(o: Seq<FinalizeOutcome>) -> Seq<Seq<char>>
    decreases o.len(),
{
    if o.len() == 0 {
        Seq::empty()
    } else if o.last().kind is Retry {
        retried(o.drop_last()).push(numeral(o.last().item_id as nat))
    } else {
        retried(o.drop_last())
    }
}

fn retried_ids(outcomes: &Vec<FinalizeOutcome>) -> (r: Vec<String>)
    ensures
        texts(r@) == retried(outcomes@),
{
    let mut out: Vec<String> = Vec::new();
    let mut i: usize = 0;
    assert(outcomes@.take(0) =~= Seq::<FinalizeOutcome>::empty());
    assert(texts(out@) =~= Seq::<Seq<char>>::empty());
    while i < outcomes.len()
        invariant
            i <= outcomes@.len(),
            texts(out@) == retried(outcomes@.take(i as int)),
        decreases outcomes@.len() - i,
    {
        proof {
            assert(outcomes@.take(i as int + 1).drop_last() =~= outcomes@.take(i as int));
            assert(outcomes@.take(i as int + 1).last() == outcomes@[i as int]);
        }
        match outcomes[i].kind {
            FinalizeKind::Retry => push_id(&mut out, outcomes[i].item_id),
            _ => {},
        }
        i = i + 1;
    }
    assert(outcomes@.take(i as int) =~= outcomes@);
    out
}

/// The items that are pending again join the summaries of their groups.
pub open spec fn rejoins(
    m: MemoryV,
    rec: Option<RecurrencePolicy>,
    q: QueueV,
    o: Seq<FinalizeOutcome>,
    retries: Seq<(Seq<char>, i64, i64)>,
    now: i64,
) -> Script<Kept<()>> {
    if !reenters(rec, o) {
        Script::Done((m, Ok(())))
    } else if !m.grouped.contains(q) {
        Script::Done((hint_reset(m, q), Ok(())))
    } else {
        hold(
            hint_reset(m, q),
            loads_grouped(q, back_ids(rec, o, retries)),
            |added: Seq<RefV>|
                hold(
                    hint_reset(m, q),
                    adds(q, groups_in(added), added, now),
                    |u: ()| Script::Done((hint_reset(m, q), Ok::<(), ErrorV>(()))),
                ),
        )
    }
}

fn rejoin<T: RelTx>(
    tx: &mut RelSession<T>,
    memory: &mut DriverMemory,
    rec: Option<RecurrencePolicy>,
    shard: &QueueKey,
    outcomes: &Vec<FinalizeOutcome>,
    retries: &Vec<RetryRow>,
    now: UtcTimestamp,
) -> (r: EngineResult<()>)
    ensures
        held(
            old(tx).trace(),
            final(tx).trace(),
            rejoins(old(memory)@, rec, shard@, outcomes@, contents(retries@), nanos(now)),
            (final(memory)@, outcome(r)),
        ),
{
    proof {
        lemma_start(
            tx.trace(),
            rejoins(memory@, rec, shard@, outcomes@, contents(retries@), nanos(now)),
        );
    }
    if !some_reenters(rec, outcomes) {
        return Ok(());
    }
    let grouped = memory.grouped_shards.contains(shard);
    reset_claim_scan_hint(memory, shard);
    if !grouped {
        return Ok(());
    }
    let ids = find_back_ids(rec, outcomes, retries);
    let added = match load_grouped_items(tx, shard, &ids) {
        Err(e) => return Err(e),
        Ok(v) => v,
    };
    let groups = unique_groups(&added);
    apply_group_summary_add(tx, shard, &groups, &added, now)
}

/// Leased items get their outcomes: their tokens are dropped, each goes to its next state, those
/// that go back get their schedule and join the summaries of their groups.
pub open spec fn finalizes(
    m: MemoryV,
    queues: Map<QueueV, QueueDefinition>,
    q: QueueV,
    epoch: u64,
    seq: u64,
    now: UtcTimestamp,
    o: Seq<FinalizeOutcome>,
) -> Script<Kept<()>> {
    hold(
        m,
        on_items(DELETE_LEASE_BEARERS@, Seq::empty(), q, id_texts(outcome_ids(o))),
        |u: ()|
            hold(
                m,
                reads_in::<RetryRow>(
                    SELECT_RETRIES@,
                    Seq::empty(),
                    own(q),
                    retried(o),
                    RELATIONAL_BATCH as nat,
                ),
                |retries: Seq<(Seq<char>, i64, i64)>| {
                    let (n, r) = sorted_out(m, recurrence_of(queues, q), q, o, retries);
                    match r {
                        Err(e) => Script::Done((n, Err::<(), ErrorV>(e))),
                        Ok(b) => hold(
                            n,
                            settles_all(plain(n, q), q, b, nanos(now), epoch, seq),
                            |v: ()|
                                hold(
                                    n,
                                    reschedules(q, b, nanos(now)),
                                    |w: ()| rejoins(
                                            n,
                                            recurrence_of(queues, q),
                                            q,
                                            o,
                                            retries,
                                            nanos(now),
                                        ),
                                ),
                        ),
                    }
                },
            ),
    )
}

fn reschedule<T: RelTx>(tx: &mut RelSession<T>, shard: &QueueKey, b: &Buckets, now_n: i64) -> (r:
    EngineResult<()>)
    ensures
        held(old(tx).trace(), final(tx).trace(), reschedules(shard@, b@, now_n), outcome(r)),
{
    proof {
        lemma_start(tx.trace(), reschedules(shard@, b@, now_n));
    }
    match back_off(tx, shard, &b.backoff) {
        Err(e) => return Err(e),
        Ok(_) => {},
    }
    rearm(tx, shard, &b.schedule, now_n)
}

/// Gives leased items their outcomes.
pub fn apply_finalize_sql<T: RelTx>(
    tx: &mut RelSession<T>,
    queues: &Queues,
    memory: &mut DriverMemory,
    shard: &QueueKey,
    position: &CommandPosition,
    seq: u64,
    now: UtcTimestamp,
    outcomes: &Vec<FinalizeOutcome>,
) -> (r: EngineResult<()>)
    ensures
        held(
            old(tx).trace(),
            final(tx).trace(),
            finalizes(old(memory)@, queues@, shard@, position.backend_epoch, seq, now, outcomes@),
            (final(memory)@, outcome(r)),
        ),
{
    proof {
        lemma_start(
            tx.trace(),
            finalizes(memory@, queues@, shard@, position.backend_epoch, seq, now, outcomes@),
        );
        assert(""@ =~= Seq::<char>::empty()) by {
            reveal_strlit("");
        }
    }
    let rec = find_recurrence(queues, shard);
    let ids = id_strings(&ids_of_outcomes(outcomes));
    match exec_items_in(tx, DELETE_LEASE_BEARERS, Params::new(), shard, &ids) {
        Err(e) => return Err(e),
        Ok(_) => {},
    }
    let retry_ids = retried_ids(outcomes);
    let retries = match query_listed::<T, RetryRow>(
        tx,
        SELECT_RETRIES,
        "",
        &own_params(shard),
        &retry_ids,
        RELATIONAL_BATCH,
    ) {
        Err(e) => return Err(e),
        Ok(v) => v,
    };
    let buckets = match sort_out(memory, rec, shard, outcomes, &retries) {
        Err(e) => return Err(e),
        Ok(b) => b,
    };
    let now_n = ts_nanos(now);
    match settle_all(
        tx,
        memory.is_fifo(shard),
        shard,
        &buckets,
        now_n,
        position.backend_epoch,
        seq,
    ) {
        Err(e) => return Err(e),
        Ok(_) => {},
    }
    match reschedule(tx, shard, &buckets, now_n) {
        Err(e) => return Err(e),
        Ok(_) => {},
    }
    rejoin(tx, memory, rec, shard, outcomes, &retries, now)
}

/// A row of attempts and their limit.
pub struct AttemptRow(pub i64, pub i64);

impl FromRow for AttemptRow {
    type V = (i64, i64);

    open spec fn content(&self) -> (i64, i64) {
        (self.0, self.1)
    }

    open spec fn row_reading(row: Seq<CellV>) -> Result<(i64, i64), ErrorV> {
        match column::<i64>(row, 0) {
            Err(e) => Err(e),
            Ok(a) => match column::<i64>(row, 1) {
                Err(e) => Err(e),
                Ok(b) => Ok((a, b)),
            },
        }
    }

    fn from_row(row: &RelRow) -> (r: EngineResult<AttemptRow>) {
        let a = match row.get::<i64>(0) {
            Err(e) => return Err(e),
            Ok(v) => v,
        };
        match row.get::<i64>(1) {
            Err(e) => Err(e),
            Ok(b) => Ok(AttemptRow(a, b)),
        }
    }
}

/// Some member has used up its deliveries.
pub open spec fn some_used_up(rows: Seq<(i64, i64)>) -> bool {
    exists|i: int| 0 <= i < rows.len() && used_up((#[trigger] rows[i]).0, rows[i].1)
}

fn any_used_up(rows: &Vec<AttemptRow>) -> (r: bool)
    ensures
        r == some_used_up(contents(rows@)),
{
    let ghost all = contents(rows@);
    let mut i: usize = 0;
    while i < rows.len()
        invariant
            i <= rows@.len(),
            all == contents(rows@),
            forall|j: int| 0 <= j < i ==> !used_up((#[trigger] all[j]).0, all[j].1),
        decreases rows@.len() - i,
    {
        assert(all[i as int] == rows@[i as int].content());
        if is_retry_exhausted(rows[i].0 as u32, rows[i].1 as u32) {
            return true;
        }
        i = i + 1;
    }
    false
}

/// What becomes of a cohort: a retry is a failure once a member has used up its deliveries.
pub open spec fn asks_kind(q: QueueV, ids: Seq<Seq<char>>, kind: FinalizeKind) -> Script<
    Result<FinalizeKind, ErrorV>,
> {
    if kind is Retry {
        chain(
            reads::<AttemptRow>(
                listed(SELECT_COHORT_RETRIES@, ids.len(), Seq::empty()),
                own(q) + text_cells(ids),
            ),
            |rows: Seq<(i64, i64)>|
                Script::Done(
                    Ok::<FinalizeKind, ErrorV>(
                        if some_used_up(rows) {
                            FinalizeKind::Fail
                        } else {
                            FinalizeKind::Retry
                        },
                    ),
                ),
        )
    } else {
        Script::Done(Ok(kind))
    }
}

fn find_kind<T: RelTx>(
    tx: &mut RelSession<T>,
    shard: &QueueKey,
    ids: &Vec<String>,
    kind: FinalizeKind,
) -> (r: EngineResult<FinalizeKind>)
    ensures
        held(
            old(tx).trace(),
            final(tx).trace(),
            asks_kind(shard@, texts(ids@), kind),
            outcome(r),
        ),
{
    proof {
        lemma_start(tx.trace(), asks_kind(shard@, texts(ids@), kind));
        assert(""@ =~= Seq::<char>::empty()) by {
            reveal_strlit("");
        }
        assert(texts(ids@).len() == ids@.len());
        assert(texts(ids@).subrange(0, ids@.len() as int) =~= texts(ids@));
    }
    match kind {
        FinalizeKind::Retry => {
            let n = ids.len();
            let sql = list_sql(SELECT_COHORT_RETRIES, n, "");
            match query_rows::<T, AttemptRow>(
                tx,
                sql.as_str(),
                own_params(shard).texts(ids, 0, n),
            ) {
                Err(e) => Err(e),
                Ok(rows) => if any_used_up(&rows) {
                    Ok(FinalizeKind::Fail)
                } else {
                    Ok(FinalizeKind::Retry)
                },
            }
        },
        other => Ok(other),
    }
}

/// The outcome of each member of a cohort.
pub open spec fn member_outcomes(
    ids: Seq<ItemId>,
    kind: FinalizeKind,
    not_before: Option<UtcTimestamp>,
) -> Seq<FinalizeOutcome> {
    ids.map_values(
        |i: ItemId|
            FinalizeOutcome {
                item_id: i,
                kind,
                applied_state: None,
                not_before: if kind is Retry {
                    not_before
                } else {
                    None
                },
            },
    )
}

fn outcomes_for(ids: &Vec<ItemId>, kind: FinalizeKind, not_before: Option<UtcTimestamp>) -> (r: Vec<
    FinalizeOutcome,
>)
    ensures
        r@ == member_outcomes(ids@, kind, not_before),
{
    let ghost all = member_outcomes(ids@, kind, not_before);
    let nb = match kind {
        FinalizeKind::Retry => not_before,
        _ => None,
    };
    let mut out: Vec<FinalizeOutcome> = Vec::new();
    let mut i: usize = 0;
    while i < ids.len()
        invariant
            i <= ids@.len(),
            all == member_outcomes(ids@, kind, not_before),
            nb == (if kind is Retry {
                not_before
            } else {
                None
            }),
            out@ == all.take(i as int),
        decreases ids@.len() - i,
    {
        out.push(FinalizeOutcome { item_id: ids[i], kind, applied_state: None, not_before: nb });
        assert(all.take(i as int + 1) =~= all.take(i as int).push(all[i as int]));
        i = i + 1;
    }
    assert(all.take(i as int) =~= all);
    out
}

/// A cohort is recorded as settled, or as complete again. A cohort cannot be rearmed.
pub open spec fn settles_cohort(
    queues: Map<QueueV, QueueDefinition>,
    q: QueueV,
    cohort: Seq<char>,
    kind: FinalizeKind,
    now: i64,
) -> Script<Result<(), ErrorV>> {
    match kind {
        FinalizeKind::Rearm => Script::Done(Err(ErrorV::Invalid("cohort rearm is invalid"@))),
        FinalizeKind::Retry => done(
            SETTLE_COHORT@,
            own(q).push(CellV::Text(cohort)).push(CellV::Text("complete"@)).push(CellV::Null),
        ),
        FinalizeKind::Release => done(
            SETTLE_COHORT@,
            own(q).push(CellV::Text(cohort)).push(CellV::Text("complete"@)).push(CellV::Null),
        ),
        _ => match kept_until(queues, q, now) {
            Err(e) => Script::Done(Err(e)),
            Ok(until) => done(
                SETTLE_COHORT@,
                own(q).push(CellV::Text(cohort)).push(CellV::Text("terminal"@)).push(
                    CellV::Integer(until),
                ),
            ),
        },
    }
}

fn settle_cohort<T: RelTx>(
    tx: &mut RelSession<T>,
    queues: &Queues,
    shard: &QueueKey,
    cohort_id: &str,
    kind: FinalizeKind,
    now_n: i64,
) -> (r: EngineResult<()>)
    ensures
        held(
            old(tx).trace(),
            final(tx).trace(),
            settles_cohort(queues@, shard@, cohort_id@, kind, now_n),
            outcome(r),
        ),
{
    proof {
        lemma_start(tx.trace(), settles_cohort(queues@, shard@, cohort_id@, kind, now_n));
    }
    match kind {
        FinalizeKind::Rearm => Err(EngineError::Invalid("cohort rearm is invalid")),
        FinalizeKind::Retry => rel_done(
            tx,
            SETTLE_COHORT,
            own_params(shard).text(cohort_id).text("complete").maybe_int(None),
        ),
        FinalizeKind::Release => rel_done(
            tx,
            SETTLE_COHORT,
            own_params(shard).text(cohort_id).text("complete").maybe_int(None),
        ),
        _ => match cohort_retention_until(queues, shard, now_n) {
            Err(e) => Err(e),
            Ok(until) => rel_done(
                tx,
                SETTLE_COHORT,
                own_params(shard).text(cohort_id).text("terminal").number(until),
            ),
        },
    }
}

/// All live members of a cohort get one outcome, and the cohort with them.
pub open spec fn finalizes_cohort(
    m: MemoryV,
    queues: Map<QueueV, QueueDefinition>,
    q: QueueV,
    epoch: u64,
    seq: u64,
    now: UtcTimestamp,
    c: CohortFinalizeCommand,
) -> Script<Kept<()>> {
    hold(
        m,
        asks_members(q, c.cohort_id@),
        |ids: Seq<ItemId>|
            if ids.len() == 0 {
                Script::Done((m, Err::<(), ErrorV>(ErrorV::NotFound)))
            } else {
                hold(
                    m,
                    asks_kind(q, id_texts(ids), c.kind),
                    |kind: FinalizeKind|
                        pass(
                            finalizes(
                                m,
                                queues,
                                q,
                                epoch,
                                seq,
                                now,
                                member_outcomes(ids, kind, c.not_before),
                            ),
                            |n: MemoryV, u: ()|
                                hold(
                                    n,
                                    settles_cohort(queues, q, c.cohort_id@, kind, nanos(now)),
                                    |v: ()| Script::Done((n, Ok::<(), ErrorV>(()))),
                                ),
                        ),
                )
            },
    )
}

/// Gives all live members of a cohort one outcome.
pub fn apply_cohort_finalize_sql<T: RelTx>(
    tx: &mut RelSession<T>,
    queues: &Queues,
    memory: &mut DriverMemory,
    shard: &QueueKey,
    position: &CommandPosition,
    seq: u64,
    now: UtcTimestamp,
    c: &CohortFinalizeCommand,
) -> (r: EngineResult<()>)
    ensures
        held(
            old(tx).trace(),
            final(tx).trace(),
            finalizes_cohort(
                old(memory)@,
                queues@,
                shard@,
                position.backend_epoch,
                seq,
                now,
                *c,
            ),
            (final(memory)@, outcome(r)),
        ),
{
    proof {
        lemma_start(
            tx.trace(),
            finalizes_cohort(memory@, queues@, shard@, position.backend_epoch, seq, now, *c),
        );
    }
    let ids = match cohort_item_ids(tx, shard, c.cohort_id.as_str()) {
        Err(e) => return Err(e),
        Ok(v) => v,
    };
    if ids.len() == 0 {
        return Err(EngineError::NotFound);
    }
    let kind = match find_kind(tx, shard, &id_strings(&ids), c.kind) {
        Err(e) => return Err(e),
        Ok(k) => k,
    };
    let outcomes = outcomes_for(&ids, kind, c.not_before);
    match apply_finalize_sql(tx, queues, memory, shard, position, seq, now, &outcomes) {
        Err(e) => return Err(e),
        Ok(_) => {},
    }
    settle_cohort(tx, queues, shard, c.cohort_id.as_str(), kind, ts_nanos(now))
}

/// A retry with no deliveries left fails; with one left the item goes back to pending.
pub proof fn law_retries_end(
    rec: Option<RecurrencePolicy>,
    o: FinalizeOutcome,
    retries: Seq<(Seq<char>, i64, i64)>,
    x: (i64, i64),
)
    requires
        o.kind is Retry,
        o.applied_state is None,
        retry_of(retries, numeral(o.item_id as nat)) == Some(x),
    ensures
        state_after(rec, o, retries) == (if used_up(x.0, x.1) {
            Ok::<ItemState, ErrorV>(ItemState::Failed)
        } else {
            Ok(ItemState::Pending)
        }),
{
}

/// A series whose next time would lie past its end completes, as it does in memory; any other goes
/// back to pending.
pub proof fn law_stored_series_end(
    queues: Map<QueueV, QueueDefinition>,
    q: QueueV,
    o: FinalizeOutcome,
    retries: Seq<(Seq<char>, i64, i64)>,
)
    requires
        o.kind is Rearm,
        o.applied_state is None,
        queues.contains_key(q),
    ensures
        state_after(recurrence_of(queues, q), o, retries) == Ok::<ItemState, ErrorV>(
            if series_over(queues[q].recurrence, o.not_before) {
                ItemState::Complete
            } else {
                ItemState::Pending
            },
        ),
{
}

/// What the row of an item gets that is over.
pub open spec fn ending(state: ItemState, now: i64, epoch: u64) -> Settling {
    Settling { state, reset: false, terminal_at: Some(now), terminal_epoch: Some(epoch as i64) }
}

/// An item is to be written as complete, and as nothing else.
pub open spec fn only_complete(b: BucketsV, id: Seq<char>) -> bool {
    &&& b.complete.contains(id)
    &&& !b.failed.contains(id)
    &&& !b.pending.contains(id)
    &&& !b.rearmed.contains(id)
    &&& forall|i: int| 0 <= i < b.backoff.len() ==> (#[trigger] b.backoff[i]).1 != id
    &&& forall|i: int| 0 <= i < b.schedule.len() ==> (#[trigger] b.schedule[i]).1 != id
}

/// No list of those to be settled names the item.
pub open spec fn unnamed(b: BucketsV, id: Seq<char>) -> bool {
    &&& !b.complete.contains(id)
    &&& !b.failed.contains(id)
    &&& !b.pending.contains(id)
    &&& !b.rearmed.contains(id)
    &&& forall|i: int| 0 <= i < b.backoff.len() ==> (#[trigger] b.backoff[i]).1 != id
    &&& forall|i: int| 0 <= i < b.schedule.len() ==> (#[trigger] b.schedule[i]).1 != id
}

proof fn lemma_bucketed_other(b: BucketsV, o: FinalizeOutcome, s: ItemState, id: ItemId)
    requires
        o.item_id != id,
    ensures
        ({
            let c = bucketed(b, o, s);
            let t = numeral(id as nat);
            &&& unnamed(b, t) ==> unnamed(c, t)
            &&& only_complete(b, t) ==> only_complete(c, t)
        }),
{
    let t = numeral(id as nat);
    let u = numeral(o.item_id as nat);
    law_numerals_read_back(o.item_id as nat, u64::MAX as nat);
    law_numerals_read_back(id as nat, u64::MAX as nat);
    let c = bucketed(b, o, s);
    assert forall|l: Seq<Seq<char>>| #[trigger] l.push(u).contains(t) <==> l.contains(t) by {
        if l.push(u).contains(t) {
            let i = choose|i: int| 0 <= i < l.push(u).len() && l.push(u)[i] == t;
            assert(l[i] == t);
        }
        if l.contains(t) {
            let i = choose|i: int| 0 <= i < l.len() && l[i] == t;
            assert(l.push(u)[i] == t);
        }
    }
}

proof fn lemma_sorted_unnamed(
    m: MemoryV,
    rec: Option<RecurrencePolicy>,
    q: QueueV,
    o: Seq<FinalizeOutcome>,
    retries: Seq<(Seq<char>, i64, i64)>,
    id: ItemId,
)
    requires
        forall|j: int| 0 <= j < o.len() ==> (#[trigger] o[j]).item_id != id,
        sorted_out(m, rec, q, o, retries).1 is Ok,
    ensures
        unnamed(sorted_out(m, rec, q, o, retries).1->Ok_0, numeral(id as nat)),
    decreases o.len(),
{
    if o.len() > 0 {
        lemma_sorted_unnamed(m, rec, q, o.drop_last(), retries, id);
        let b = sorted_out(m, rec, q, o.drop_last(), retries).1->Ok_0;
        let s = state_after(rec, o.last(), retries)->Ok_0;
        assert(o.last() == o[o.len() - 1]);
        lemma_bucketed_other(b, o.last(), s, id);
    }
}

/// Among any outcomes that settle, an item whose series has ended is one of those that are written as
/// complete, and none of those that go back or get a schedule.
pub proof fn law_ended_series_are_settled_as_complete(
    m: MemoryV,
    queues: Map<QueueV, QueueDefinition>,
    q: QueueV,
    o: Seq<FinalizeOutcome>,
    retries: Seq<(Seq<char>, i64, i64)>,
    k: int,
)
    requires
        0 <= k < o.len(),
        o[k].kind is Rearm,
        o[k].applied_state is None,
        queues.contains_key(q),
        series_over(queues[q].recurrence, o[k].not_before),
        forall|j: int| 0 <= j < o.len() && j != k ==> (#[trigger] o[j]).item_id != o[k].item_id,
        sorted_out(m, recurrence_of(queues, q), q, o, retries).1 is Ok,
    ensures
        only_complete(
            sorted_out(m, recurrence_of(queues, q), q, o, retries).1->Ok_0,
            numeral(o[k].item_id as nat),
        ),
    decreases o.len(),
{
    let rec = recurrence_of(queues, q);
    let id = o[k].item_id;
    let rest = o.drop_last();
    let b = sorted_out(m, rec, q, rest, retries).1->Ok_0;
    assert(o.last() == o[o.len() - 1]);
    if k == o.len() - 1 {
        lemma_sorted_unnamed(m, rec, q, rest, retries, id);
        law_stored_series_end(queues, q, o[k], retries);
        let c = bucketed(b, o[k], ItemState::Complete);
        assert(c.complete.last() == numeral(id as nat));
    } else {
        assert(rest[k] == o[k]);
        law_ended_series_are_settled_as_complete(m, queues, q, rest, retries, k);
        lemma_bucketed_other(b, o.last(), state_after(rec, o.last(), retries)->Ok_0, id);
    }
}

/// What is written for an item whose series has ended: its row becomes complete, with the time that it
/// ended at, it gets no schedule, and it joins no group again.
pub proof fn law_ended_series_row(
    m: MemoryV,
    queues: Map<QueueV, QueueDefinition>,
    q: QueueV,
    o: FinalizeOutcome,
    retries: Seq<(Seq<char>, i64, i64)>,
    now: i64,
    epoch: u64,
    seq: u64,
)
    requires
        o.kind is Rearm,
        o.applied_state is None,
        queues.contains_key(q),
        series_over(queues[q].recurrence, o.not_before),
    ensures
        ({
            let rec = recurrence_of(queues, q);
            let id = numeral(o.item_id as nat);
            let n = noted(m, TokenV::Clear(q, o.item_id));
            let b = BucketsV { complete: seq![id], ..no_buckets() };
            let row = ending(ItemState::Complete, now, epoch);
            &&& sorted_out(m, rec, q, seq![o], retries) == (n, Ok::<BucketsV, ErrorV>(b))
            &&& settles_all(plain(n, q), q, b, now, epoch, seq) == chain(
                settles(plain(n, q), q, row, seq![id], now, seq),
                |u: ()| Script::Done(Ok::<(), ErrorV>(())),
            )
            &&& settling_cells(row, now, seq)[0] == CellV::Text("Complete"@)
            &&& settling_cells(row, now, seq)[2] == CellV::Integer(now)
            &&& reschedules(q, b, now) == Script::Done(Ok::<(), ErrorV>(()))
            &&& rejoins(n, rec, q, seq![o], retries, now) == Script::Done(
                (n, Ok::<(), ErrorV>(())),
            )
        }),
{
    let rec = recurrence_of(queues, q);
    let id = numeral(o.item_id as nat);
    let n = noted(m, TokenV::Clear(q, o.item_id));
    let b = BucketsV { complete: seq![id], ..no_buckets() };
    let row = ending(ItemState::Complete, now, epoch);
    let one = seq![o];
    let p = plain(n, q);
    law_stored_series_end(queues, q, o, retries);
    reveal_with_fuel(sorted_out, 2);
    assert(one.drop_last() =~= Seq::<FinalizeOutcome>::empty());
    assert(no_buckets().complete.push(id) =~= seq![id]);
    lemma_settles_none(p, q, ending(ItemState::Failed, now, epoch), now, seq);
    let back = |reset: bool|
        Settling { state: ItemState::Pending, reset, terminal_at: None, terminal_epoch: None };
    lemma_settles_none(p, q, back(false), now, seq);
    lemma_settles_none(p, q, back(true), now, seq);
    let over = |s: ItemState|
        Settling {
            state: s,
            reset: false,
            terminal_at: Some(now),
            terminal_epoch: Some(epoch as i64),
        };
    let rest = |u: ()|
        chain(
            settles(p, q, over(ItemState::Failed), b.failed, now, seq),
            |v: ()|
                chain(
                    settles(p, q, back(false), b.pending, now, seq),
                    |w: ()| settles(p, q, back(true), b.rearmed, now, seq),
                ),
        );
    let nothing = |u: ()| Script::Done(Ok::<(), ErrorV>(()));
    assert(rest =~= nothing);
    assert(key_set(b.backoff) =~= Set::<i64>::empty());
    assert(key_set(b.schedule) =~= Set::<Option<i64>>::empty());
    assert(listing_of::<i64>(key_set(b.backoff)) =~= Seq::<i64>::empty()) by {
        lemma_listing_exists::<i64>(key_set(b.backoff));
    }
    assert(listing_of::<Option<i64>>(key_set(b.schedule)) =~= Seq::<Option<i64>>::empty()) by {
        lemma_listing_exists::<Option<i64>>(key_set(b.schedule));
    }
    assert(!reenters(rec, one));
}

/// No items, no statement.
proof fn lemma_settles_none(p: bool, q: QueueV, s: Settling, now: i64, seq: u64)
    ensures
        settles(p, q, s, Seq::<Seq<char>>::empty(), now, seq) == Script::Done(Ok::<(), ErrorV>(())),
{
}

} // verus!
