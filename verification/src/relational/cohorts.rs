//! Cohorts: groups of items that are claimed and settled together.

use crate::order::{OrdMap, listing_of};
use crate::relational::codec::{later_by, millis_later, wrap_sum, wrapped_sum};
use crate::relational::exec::{RelSession, RelTx, first, one, query_optional, query_row, rel_done, text_outcome};
use crate::relational::indexes::InsertItemSpec;
use crate::relational::query::{ids_outcome, named, own, own_params, query_items};
use crate::relational::script::{Script, chain, done, each, group_talk, held, lemma_start, reached};
use crate::relational::value::{CellV, RelRow, column, flag_cell, int_cell};
use crate::text::{int_numeral, push_i64, same_text};
use crate::types::{EngineError, EngineResult, ErrorV, ItemId, PushItem, QueueDefinition, QueueKey, QueueV, outcome};
use vstd::prelude::*;
use vstd::string::*;

verus! {

broadcast use group_talk;

pub const COHORT_EXPIRY_SWEEP_LIMIT: usize = 128;

pub const SELECT_COHORT: &'static str = "SELECT cohort_size, member_count, state, retention_until FROM fireweed_cohorts \
                 WHERE tenant_id=?1 AND queue_id=?2 AND group_key=?3";

pub const INSERT_COHORT: &'static str = "INSERT INTO fireweed_cohorts \
                     (tenant_id,queue_id,group_key,cohort_id,cohort_size,member_count,state,\
                      cohort_created_at,first_eligible_at,created_at) \
                     VALUES (?1,?2,?3,?4,?5,?6,?7,?8,?9,?8)";

pub const REFORM_COHORT: &'static str = "UPDATE fireweed_cohorts SET cohort_id=?4, cohort_size=?5, member_count=?6, \
                         state=?7, cohort_created_at=?8, first_eligible_at=?9, expire_command_pos=NULL, \
                         cohort_lease_token_hash=NULL, retention_until=NULL, created_at=?8 \
                         WHERE tenant_id=?1 AND queue_id=?2 AND group_key=?3";

pub const GROW_COHORT: &'static str = "UPDATE fireweed_cohorts SET member_count=?4, state=?5, \
                     first_eligible_at=CASE WHEN ?6 AND first_eligible_at IS NULL THEN ?7 ELSE first_eligible_at END \
                     WHERE tenant_id=?1 AND queue_id=?2 AND group_key=?3";

pub const SELECT_COHORT_GROUP: &'static str = "SELECT group_key FROM fireweed_cohorts WHERE tenant_id=?1 AND queue_id=?2 AND cohort_id=?3";

pub const SELECT_COHORT_ITEMS: &'static str = "SELECT item_id FROM fireweed_items WHERE tenant_id=?1 AND queue_id=?2 AND group_key=?3 \
         AND superseded=0 AND cohort_size IS NOT NULL AND lifecycle_state NOT IN ('Complete','Failed') \
         ORDER BY priority_sort, created_seq";

/// The definitions of queues.
pub type Queues = OrdMap<QueueKey, QueueDefinition>;

/// The name of a cohort: its group and when it began to form.
pub open spec fn cohort_name(group: Seq<char>, now: i64) -> Seq<char> {
    "coh:"@ + group + ":"@ + int_numeral(now as int)
}

pub fn cohort_id_for(group_key: &str, now_n: i64) -> (r: String)
    ensures
        r@ == cohort_name(group_key@, now_n),
{
    let mut out = "coh:".to_owned();
    out.append(group_key);
    out.append(":");
    push_i64(&mut out, now_n);
    out
}

/// Until when a settled cohort is kept.
pub open spec fn kept_until(queues: Map<QueueV, QueueDefinition>, q: QueueV, now: i64) -> Result<
    i64,
    ErrorV,
> {
    if queues.contains_key(q) {
        Ok(millis_later(now, queues[q].terminal_retention_ms))
    } else {
        Err(ErrorV::NotFound)
    }
}

pub fn cohort_retention_until(queues: &Queues, shard: &QueueKey, now_n: i64) -> (r: EngineResult<
    i64,
>)
    ensures
        outcome(r) == kept_until(queues@, shard@, now_n),
{
    match queues.get(shard) {
        None => Err(EngineError::NotFound),
        Some(d) => Ok(later_by(now_n, d.terminal_retention_ms)),
    }
}

/// When a cohort must be complete, where the queue bounds that: counted from its first eligible
/// moment or its start, whichever came first.
pub open spec fn deadline(d: QueueDefinition, created: i64, first: Option<i64>) -> Option<i64> {
    match d.cohort_completion_bound_ms {
        None => None,
        Some(ms) => Some(
            millis_later(
                match first {
                    Some(f) => if f < created {
                        f
                    } else {
                        created
                    },
                    None => created,
                },
                ms,
            ),
        ),
    }
}

pub fn cohort_expiry_deadline(
    definition: &QueueDefinition,
    cohort_created_at: i64,
    first_eligible_at: Option<i64>,
) -> (r: Option<i64>)
    ensures
        r == deadline(*definition, cohort_created_at, first_eligible_at),
{
    match definition.cohort_completion_bound_ms {
        None => None,
        Some(ms) => {
            let start = match first_eligible_at {
                Some(f) => if f < cohort_created_at {
                    f
                } else {
                    cohort_created_at
                },
                None => cohort_created_at,
            };
            Some(later_by(start, ms))
        },
    }
}

/// A cohort with all its members is complete; before that it forms.
pub open spec fn member_state(count: i64, size: i64) -> Seq<char> {
    if count >= size {
        "complete"@
    } else {
        "forming"@
    }
}

pub fn cohort_member_count_state(count: i64, size: i64) -> (r: &'static str)
    ensures
        r@ == member_state(count, size),
{
    if count >= size {
        "complete"
    } else {
        "forming"
    }
}

/// The declared size and the new members of each cohort among new items.
pub type Tally = Map<Seq<char>, (i64, i64)>;

/// One more item is counted. Items of one cohort declare one size.
pub open spec fn tallied_one(t: Tally, item: PushItem) -> Result<Tally, ErrorV> {
    match (item.group_key, item.cohort_size) {
        (Some(g), Some(s)) => {
            let size = s as i64;
            let entry = if t.contains_key(g@) {
                t[g@]
            } else {
                (size, 0)
            };
            if entry.0 != size {
                Err(ErrorV::Conflict)
            } else {
                Ok(t.insert(g@, (size, wrapped_sum(entry.1, 1))))
            }
        },
        _ => Ok(t),
    }
}

pub open spec fn tallied(items: Seq<InsertItemSpec>) -> Result<Tally, ErrorV>
    decreases items.len(),
{
    if items.len() == 0 {
        Ok(Map::empty())
    } else {
        match tallied(items.drop_last()) {
            Err(e) => Err(e),
            Ok(t) => tallied_one(t, *items.last().item),
        }
    }
}

proof fn lemma_tally_stops(items: Seq<InsertItemSpec>, n: int, e: ErrorV)
    requires
        0 <= n <= items.len(),
        tallied(items.take(n)) == Err::<Tally, ErrorV>(e),
    ensures
        tallied(items) == Err::<Tally, ErrorV>(e),
    decreases items.len() - n,
{
    if n == items.len() {
        assert(items.take(n) =~= items);
    } else {
        assert(items.take(n + 1).drop_last() =~= items.take(n));
        lemma_tally_stops(items, n + 1, e);
    }
}

fn tally(items: &Vec<InsertItemSpec>) -> (r: EngineResult<OrdMap<String, (i64, i64)>>)
    ensures
        (match r {
            Ok(t) => Ok(t@),
            Err(e) => Err(e@),
        }) == tallied(items@),
{
    let mut out: OrdMap<String, (i64, i64)> = OrdMap::new();
    let mut i: usize = 0;
    assert(items@.take(0) =~= Seq::<InsertItemSpec>::empty());
    assert(out@ =~= Map::<Seq<char>, (i64, i64)>::empty());
    while i < items.len()
        invariant
            i <= items@.len(),
            tallied(items@.take(i as int)) == Ok::<Tally, ErrorV>(out@),
        decreases items@.len() - i,
    {
        proof {
            assert(items@.take(i as int + 1).drop_last() =~= items@.take(i as int));
            assert(items@.take(i as int + 1).last() == items@[i as int]);
        }
        let item = items[i].item;
        match (&item.group_key, item.cohort_size) {
            (Some(g), Some(s)) => {
                let size = s as i64;
                let entry = match out.get(g) {
                    Some(e) => *e,
                    None => (size, 0),
                };
                if entry.0 != size {
                    proof {
                        lemma_tally_stops(items@, i as int + 1, ErrorV::Conflict);
                    }
                    return Err(EngineError::Conflict);
                }
                out.insert(g.clone(), (size, wrap_sum(entry.1, 1)));
            },
            _ => {},
        }
        i = i + 1;
    }
    assert(items@.take(i as int) =~= items@);
    Ok(out)
}

/// The parameters of a cohort that starts to form.
pub open spec fn forming_cells(q: QueueV, group: Seq<char>, size: i64, added: i64, now: i64) -> Seq<
    CellV,
> {
    own(q).push(CellV::Text(group)).push(CellV::Text(cohort_name(group, now))).push(
        CellV::Integer(size),
    ).push(CellV::Integer(added)).push(CellV::Text(member_state(added, size))).push(
        CellV::Integer(now),
    ).push(
        int_cell(
            if member_state(added, size) == "complete"@ {
                Some(now)
            } else {
                None
            },
        ),
    )
}

/// A cohort starts to form, unless it would start with more members than its size.
pub open spec fn forms(
    sql: Seq<char>,
    q: QueueV,
    group: Seq<char>,
    size: i64,
    added: i64,
    now: i64,
) -> Script<Result<(), ErrorV>> {
    if added > size {
        Script::Done(Err(ErrorV::Conflict))
    } else {
        done(sql, forming_cells(q, group, size, added, now))
    }
}

/// A stored cohort: its size, its members, its state and until when it is kept.
pub open spec fn cohort_row(r: Seq<CellV>) -> Result<(i64, i64, Seq<char>, Option<i64>), ErrorV> {
    match column::<i64>(r, 0) {
        Err(e) => Err(e),
        Ok(size) => match column::<i64>(r, 1) {
            Err(e) => Err(e),
            Ok(count) => match column::<String>(r, 2) {
                Err(e) => Err(e),
                Ok(state) => match column::<Option<i64>>(r, 3) {
                    Err(e) => Err(e),
                    Ok(until) => Ok((size, count, state, until)),
                },
            },
        },
    }
}

/// The state of a cohort with new members: a leased one stays leased.
pub open spec fn grown_state(state: Seq<char>, count: i64, size: i64) -> Seq<char> {
    if state == "leased"@ {
        state
    } else {
        member_state(count, size)
    }
}

/// New members join a stored cohort. A settled one forms anew once it is no longer kept; a live one
/// takes members of its own size, up to that size.
pub open spec fn joins(
    q: QueueV,
    group: Seq<char>,
    size: i64,
    added: i64,
    now: i64,
    stored: (i64, i64, Seq<char>, Option<i64>),
) -> Script<Result<(), ErrorV>> {
    let (existing, count, state, until) = stored;
    if state == "terminal"@ {
        if until is Some && until->Some_0 > now {
            Script::Done(Err(ErrorV::Conflict))
        } else {
            forms(REFORM_COHORT@, q, group, size, added, now)
        }
    } else if existing != size {
        Script::Done(Err(ErrorV::Conflict))
    } else if wrapped_sum(count, added) > existing {
        Script::Done(Err(ErrorV::Conflict))
    } else {
        done(
            GROW_COHORT@,
            own(q).push(CellV::Text(group)).push(CellV::Integer(wrapped_sum(count, added))).push(
                CellV::Text(grown_state(state, wrapped_sum(count, added), existing)),
            ).push(
                flag_cell(
                    grown_state(state, wrapped_sum(count, added), existing) == "complete"@,
                ),
            ).push(CellV::Integer(now)),
        )
    }
}

/// The new members of one cohort are recorded.
pub open spec fn records(q: QueueV, t: Tally, now: i64) -> spec_fn(Seq<char>) -> Script<
    Result<(), ErrorV>,
> {
    |group: Seq<char>|
        chain(
            first(SELECT_COHORT@, own(q).push(CellV::Text(group))),
            |row: Option<Seq<CellV>>|
                match row {
                    None => forms(INSERT_COHORT@, q, group, t[group].0, t[group].1, now),
                    Some(r) => match cohort_row(r) {
                        Err(e) => Script::Done(Err(e)),
                        Ok(stored) => joins(q, group, t[group].0, t[group].1, now, stored),
                    },
                },
        )
}

/// The cohorts among new items are recorded, by name of their group.
pub open spec fn records_cohorts(
    queues: Map<QueueV, QueueDefinition>,
    q: QueueV,
    items: Seq<InsertItemSpec>,
    now: i64,
) -> Script<Result<(), ErrorV>> {
    match tallied(items) {
        Err(e) => Script::Done(Err(e)),
        Ok(t) => if t.dom() =~= Set::<Seq<char>>::empty() {
            Script::Done(Ok(()))
        } else {
            match kept_until(queues, q, now) {
                Err(e) => Script::Done(Err(e)),
                Ok(_) => each(listing_of::<String>(t.dom()), records(q, t, now)),
            }
        },
    }
}

fn form<T: RelTx>(
    tx: &mut RelSession<T>,
    sql: &str,
    shard: &QueueKey,
    group: &str,
    size: i64,
    added: i64,
    now_n: i64,
) -> (r: EngineResult<()>)
    ensures
        held(
            old(tx).trace(),
            final(tx).trace(),
            forms(sql@, shard@, group@, size, added, now_n),
            outcome(r),
        ),
{
    proof {
        lemma_start(tx.trace(), forms(sql@, shard@, group@, size, added, now_n));
    }
    if added > size {
        return Err(EngineError::Conflict);
    }
    let state = cohort_member_count_state(added, size);
    let first_eligible_at = if same_text(state, "complete") {
        Some(now_n)
    } else {
        None
    };
    let params = own_params(shard).text(group).text(cohort_id_for(group, now_n).as_str()).number(
        size,
    ).number(added).text(state).number(now_n).maybe_int(first_eligible_at);
    rel_done(tx, sql, params)
}

fn join<T: RelTx>(
    tx: &mut RelSession<T>,
    shard: &QueueKey,
    group: &str,
    size: i64,
    added: i64,
    now_n: i64,
    row: &RelRow,
) -> (r: EngineResult<()>)
    ensures
        held(
            old(tx).trace(),
            final(tx).trace(),
            match cohort_row(row@) {
                Err(e) => Script::Done(Err(e)),
                Ok(stored) => joins(shard@, group@, size, added, now_n, stored),
            },
            outcome(r),
        ),
{
    proof {
        lemma_start(
            tx.trace(),
            match cohort_row(row@) {
                Err(e) => Script::Done(Err(e)),
                Ok(stored) => joins(shard@, group@, size, added, now_n, stored),
            },
        );
    }
    let existing_size = match row.get::<i64>(0) {
        Err(e) => return Err(e),
        Ok(v) => v,
    };
    let member_count = match row.get::<i64>(1) {
        Err(e) => return Err(e),
        Ok(v) => v,
    };
    let state = match row.get::<String>(2) {
        Err(e) => return Err(e),
        Ok(v) => v,
    };
    let retention_until = match row.get::<Option<i64>>(3) {
        Err(e) => return Err(e),
        Ok(v) => v,
    };
    if same_text(state.as_str(), "terminal") {
        match retention_until {
            Some(until) => {
                if until > now_n {
                    return Err(EngineError::Conflict);
                }
            },
            None => {},
        }
        return form(tx, REFORM_COHORT, shard, group, size, added, now_n);
    }
    if existing_size != size {
        return Err(EngineError::Conflict);
    }
    let next_count = wrap_sum(member_count, added);
    if next_count > existing_size {
        return Err(EngineError::Conflict);
    }
    let next_state = if same_text(state.as_str(), "leased") {
        state.as_str()
    } else {
        cohort_member_count_state(next_count, existing_size)
    };
    let params = own_params(shard).text(group).number(next_count).text(next_state).flag(
        same_text(next_state, "complete"),
    ).number(now_n);
    rel_done(tx, GROW_COHORT, params)
}

fn record_cohort<T: RelTx>(
    tx: &mut RelSession<T>,
    shard: &QueueKey,
    tally: &OrdMap<String, (i64, i64)>,
    group: &String,
    count: (i64, i64),
    now_n: i64,
) -> (r: EngineResult<()>)
    requires
        tally@.contains_key(group@),
        tally@[group@] == count,
    ensures
        held(
            old(tx).trace(),
            final(tx).trace(),
            records(shard@, tally@, now_n)(group@),
            outcome(r),
        ),
{
    proof {
        lemma_start(tx.trace(), records(shard@, tally@, now_n)(group@));
    }
    match query_optional(tx, SELECT_COHORT, own_params(shard).text(group.as_str())) {
        Err(e) => Err(e),
        Ok(None) => form(tx, INSERT_COHORT, shard, group.as_str(), count.0, count.1, now_n),
        Ok(Some(row)) => join(tx, shard, group.as_str(), count.0, count.1, now_n, &row),
    }
}

/// Records the cohorts among new items.
pub fn upsert_cohorts<T: RelTx>(
    tx: &mut RelSession<T>,
    queues: &Queues,
    shard: &QueueKey,
    items: &Vec<InsertItemSpec>,
    now_n: i64,
) -> (r: EngineResult<()>)
    ensures
        held(
            old(tx).trace(),
            final(tx).trace(),
            records_cohorts(queues@, shard@, items@, now_n),
            outcome(r),
        ),
{
    let ghost whole = records_cohorts(queues@, shard@, items@, now_n);
    let ghost start = tx.trace();
    proof {
        lemma_start(start, whole);
    }
    let cohorts = match tally(items) {
        Err(e) => return Err(e),
        Ok(t) => t,
    };
    let n = cohorts.len();
    let ghost names = listing_of::<String>(cohorts@.dom());
    proof {
        if n == 0 {
            assert(cohorts@.dom() =~= Set::<Seq<char>>::empty()) by {
                assert forall|k: Seq<char>| !cohorts@.dom().contains(k) by {
                    if cohorts@.contains_key(k) {
                        assert(cohorts.listing().contains(k));
                    }
                }
            }
        } else {
            assert(cohorts@.contains_key(cohorts.listing()[0]));
        }
    }
    if n == 0 {
        return Ok(());
    }
    match cohort_retention_until(queues, shard, now_n) {
        Err(e) => return Err(e),
        Ok(_) => {},
    }
    let ghost f = records(shard@, cohorts@, now_n);
    let mut i: usize = 0;
    assert(names.skip(0) =~= names);
    while i < n
        invariant
            i <= n,
            n == names.len(),
            n == cohorts.listing().len(),
            n == cohorts.values().len(),
            names == cohorts.listing(),
            forall|j: int|
                0 <= j < n ==> cohorts@.contains_key(#[trigger] cohorts.listing()[j])
                    && cohorts@[cohorts.listing()[j]] == cohorts.values()[j],
            start == old(tx).trace(),
            whole == records_cohorts(queues@, shard@, items@, now_n),
            f == records(shard@, cohorts@, now_n),
            reached(start, tx.trace(), whole, each(names.skip(i as int), f)),
        decreases n - i,
    {
        proof {
            assert(names.skip(i as int)[0] == names[i as int]);
            assert(names.skip(i as int).drop_first() =~= names.skip(i as int + 1));
            assert(cohorts@.contains_key(cohorts.listing()[i as int]));
        }
        match record_cohort(tx, shard, &cohorts, cohorts.key_at(i), *cohorts.value_at(i), now_n) {
            Err(e) => return Err(e),
            Ok(_) => {},
        }
        i = i + 1;
    }
    assert(names.skip(i as int) =~= Seq::<Seq<char>>::empty());
    Ok(())
}

/// The group of a cohort.
pub open spec fn asks_cohort_group(q: QueueV, cohort: Seq<char>) -> Script<
    Result<Seq<char>, ErrorV>,
> {
    chain(
        one(SELECT_COHORT_GROUP@, own(q).push(CellV::Text(cohort))),
        |row: Seq<CellV>| Script::Done(column::<String>(row, 0)),
    )
}

pub fn cohort_group_for_id<T: RelTx>(tx: &mut RelSession<T>, shard: &QueueKey, cohort_id: &str) -> (r:
    EngineResult<String>)
    ensures
        held(
            old(tx).trace(),
            final(tx).trace(),
            asks_cohort_group(shard@, cohort_id@),
            text_outcome(r),
        ),
{
    proof {
        lemma_start(tx.trace(), asks_cohort_group(shard@, cohort_id@));
    }
    match query_row(tx, SELECT_COHORT_GROUP, own_params(shard).text(cohort_id)) {
        Err(e) => Err(e),
        Ok(row) => row.get::<String>(0),
    }
}

/// The live members of a cohort, in claim order.
pub open spec fn asks_members(q: QueueV, cohort: Seq<char>) -> Script<Result<Seq<ItemId>, ErrorV>> {
    chain(
        asks_cohort_group(q, cohort),
        |group: Seq<char>| named(SELECT_COHORT_ITEMS@, own(q).push(CellV::Text(group))),
    )
}

pub fn cohort_item_ids<T: RelTx>(tx: &mut RelSession<T>, shard: &QueueKey, cohort_id: &str) -> (r:
    EngineResult<Vec<ItemId>>)
    ensures
        held(
            old(tx).trace(),
            final(tx).trace(),
            asks_members(shard@, cohort_id@),
            ids_outcome(r),
        ),
{
    proof {
        lemma_start(tx.trace(), asks_members(shard@, cohort_id@));
    }
    let group = match cohort_group_for_id(tx, shard, cohort_id) {
        Err(e) => return Err(e),
        Ok(g) => g,
    };
    query_items(tx, SELECT_COHORT_ITEMS, own_params(shard).text(group.as_str()))
}

/// A cohort never grows past its size.
pub proof fn law_cohorts_never_overfill(
    q: QueueV,
    group: Seq<char>,
    size: i64,
    added: i64,
    now: i64,
    stored: (i64, i64, Seq<char>, Option<i64>),
)
    requires
        stored.2 != "terminal"@,
        stored.0 != size || wrapped_sum(stored.1, added) > stored.0,
    ensures
        joins(q, group, size, added, now, stored) == Script::Done(
            Err::<(), ErrorV>(ErrorV::Conflict),
        ),
{
}

} // verus!
