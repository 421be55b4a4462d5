//! One command, in the store.

use crate::relational::batch::{add_refs, apply_update_fields_batch_sql, derefs, updates_batch};
use crate::relational::codec::{id_strings, id_texts, nanos};
use crate::relational::cohorts::Queues;
use crate::relational::exec::{RelCodec, RelSession, RelTx, rel_done};
use crate::relational::finalize::{apply_cohort_finalize_sql, apply_finalize_sql, finalizes, finalizes_cohort};
use crate::relational::insert::{specs_for, specs_of};
use crate::relational::lease_commands::{apply_claim_sql, apply_cohort_claim_sql, apply_cohort_expired_sql, apply_cohort_renew_sql, apply_lease_expired_sql, apply_reassign_sql, apply_renew_sql, claims_cohort, claims_items, expires, expires_cohort, reassigns, renews_cohort, renews_leases};
use crate::relational::lists::{exec_items_in, on_items};
use crate::relational::memory::{DriverMemory, Kept, MemoryV, hold};
use crate::relational::mutate::{ADVANCE_FENCE, apply_mutate_sql, apply_set_gates_sql, apply_side_records_sql, mutates, sets_gates, writes_side};
use crate::relational::push::{apply_push_specs_sql, pushes};
use crate::relational::query::{own, own_params};
use crate::relational::removal::{apply_purge_sql, apply_replace_sql, purges, replaces};
use crate::relational::script::{Script, done, group_talk, held, lemma_start};
use crate::relational::update::{apply_update_fields_sql, updates};
use crate::relational::value::{CellV, Params, flag_cell};
use crate::sql::async_projection::{FENCE_LEASE, PAUSE_QUEUE, RESUME_QUEUE, UNFENCE_LEASE};
use crate::text::texts;
use crate::types::{CommandPosition, EngineResult, ErrorV, ItemId, QueueCommand, QueueDefinition, QueueKey, QueueV, UpdateFieldsCommand, UtcTimestamp, outcome};
use vstd::prelude::*;
use vstd::string::*;

verus! {

broadcast use group_talk;

/// A conversation that leaves the memory alone.
pub open spec fn kept(m: MemoryV, s: Script<Result<(), ErrorV>>) -> Script<Kept<()>> {
    hold(m, s, |u: ()| Script::Done((m, Ok::<(), ErrorV>(()))))
}

/// The memory when a queue is created: nothing scanned, and only plain items, as there are none.
pub open spec fn queue_opened(m: MemoryV, q: QueueV) -> MemoryV {
    MemoryV { hints: m.hints.remove(q), fifo: m.fifo.insert(q, true), ..m }
}

fn open_queue(memory: &mut DriverMemory, shard: &QueueKey)
    ensures
        final(memory)@ == queue_opened(old(memory)@, shard@),
{
    memory.claim_scan_hints.remove(shard);
    memory.claim_scan_default_fifo.insert(shard.duplicate(), true);
}

/// Leases are fenced, or the fence is lifted.
pub open spec fn fences(q: QueueV, ids: Seq<ItemId>, fenced: bool) -> Script<Result<(), ErrorV>> {
    on_items(
        if fenced {
            FENCE_LEASE@
        } else {
            UNFENCE_LEASE@
        },
        Seq::empty(),
        q,
        id_texts(ids),
    )
}

fn fence_items<T: RelTx>(
    tx: &mut RelSession<T>,
    shard: &QueueKey,
    ids: &Vec<ItemId>,
    fenced: bool,
) -> (r: EngineResult<()>)
    ensures
        held(old(tx).trace(), final(tx).trace(), fences(shard@, ids@, fenced), outcome(r)),
{
    proof {
        lemma_start(tx.trace(), fences(shard@, ids@, fenced));
    }
    if fenced {
        exec_items_in(tx, FENCE_LEASE, Params::new(), shard, &id_strings(ids))
    } else {
        exec_items_in(tx, UNFENCE_LEASE, Params::new(), shard, &id_strings(ids))
    }
}

/// What the store is told of a command.
pub open spec fn commands(
    m: MemoryV,
    queues: Map<QueueV, QueueDefinition>,
    q: QueueV,
    epoch: u64,
    seq: u64,
    now: UtcTimestamp,
    command: QueueCommand,
) -> Script<Kept<()>> {
    let at = nanos(now);
    match command {
        QueueCommand::CreateQueue => Script::Done((queue_opened(m, q), Ok(()))),
        QueueCommand::Push(items) => pushes(m, queues, q, specs_of(items@, seq, now), at),
        QueueCommand::Claim(c) => claims_items(m, q, seq, at, c),
        QueueCommand::CohortClaim(c) => claims_cohort(m, q, seq, at, c),
        QueueCommand::RenewLease(c) => kept(m, renews_leases(q, seq, at, c)),
        QueueCommand::CohortRenewLease(c) => kept(m, renews_cohort(q, seq, at, c)),
        QueueCommand::ReassignLease(c) => reassigns(m, q, seq, at, c),
        QueueCommand::UpdateFields(c) => updates(m, queues, q, seq, at, c),
        QueueCommand::UpdateFieldsBatch(list) => updates_batch(m, queues, q, seq, at, list@),
        QueueCommand::MutateItems(c) => mutates(m, queues, q, epoch, seq, at, c),
        QueueCommand::Finalize(o) => finalizes(m, queues, q, epoch, seq, now, o@),
        QueueCommand::CohortFinalize(c) => finalizes_cohort(m, queues, q, epoch, seq, now, c),
        QueueCommand::ReplacePending(c) => replaces(m, queues, q, seq, now, c),
        QueueCommand::LeaseExpired(ids) => expires(m, q, seq, at, ids@),
        QueueCommand::CohortExpired(group) => expires_cohort(m, queues, q, epoch, seq, at, group@),
        QueueCommand::FenceLease(ids) => kept(m, fences(q, ids@, true)),
        QueueCommand::UnfenceLease(ids) => kept(m, fences(q, ids@, false)),
        QueueCommand::PauseQueue(drain) => kept(
            m,
            done(PAUSE_QUEUE@, own(q).push(flag_cell(drain))),
        ),
        QueueCommand::ResumeQueue => kept(m, done(RESUME_QUEUE@, own(q))),
        QueueCommand::SetGates(c) => sets_gates(m, q, texts(c.gate_keys@), c.blocked),
        QueueCommand::WriteSideRecords(records) => kept(m, writes_side(q, records@)),
        QueueCommand::AdvanceInstanceFence(c) => kept(
            m,
            done(
                ADVANCE_FENCE@,
                own(q).push(CellV::Blob(c.instance_key@)).push(CellV::Integer(c.next as i64)),
            ),
        ),
        QueueCommand::PurgeItems(c) => purges(m, queues, q, at, c.item_ids@),
    }
}

/// The commands that leave the memory alone.
pub open spec fn settled(q: QueueV, seq: u64, at: i64, command: QueueCommand) -> Option<
    Script<Result<(), ErrorV>>,
> {
    match command {
        QueueCommand::RenewLease(c) => Some(renews_leases(q, seq, at, c)),
        QueueCommand::CohortRenewLease(c) => Some(renews_cohort(q, seq, at, c)),
        QueueCommand::FenceLease(ids) => Some(fences(q, ids@, true)),
        QueueCommand::UnfenceLease(ids) => Some(fences(q, ids@, false)),
        QueueCommand::PauseQueue(drain) => Some(done(PAUSE_QUEUE@, own(q).push(flag_cell(drain)))),
        QueueCommand::ResumeQueue => Some(done(RESUME_QUEUE@, own(q))),
        QueueCommand::WriteSideRecords(records) => Some(writes_side(q, records@)),
        QueueCommand::AdvanceInstanceFence(c) => Some(
            done(
                ADVANCE_FENCE@,
                own(q).push(CellV::Blob(c.instance_key@)).push(CellV::Integer(c.next as i64)),
            ),
        ),
        _ => None,
    }
}

fn apply_settled_sql<T: RelTx>(
    tx: &mut RelSession<T>,
    shard: &QueueKey,
    seq: u64,
    now: UtcTimestamp,
    command: &QueueCommand,
) -> (r: EngineResult<()>)
    requires
        settled(shard@, seq, nanos(now), *command) is Some,
    ensures
        held(
            old(tx).trace(),
            final(tx).trace(),
            settled(shard@, seq, nanos(now), *command)->Some_0,
            outcome(r),
        ),
{
    proof {
        lemma_start(tx.trace(), settled(shard@, seq, nanos(now), *command)->Some_0);
    }
    match command {
        QueueCommand::RenewLease(c) => apply_renew_sql(tx, shard, seq, now, c),
        QueueCommand::CohortRenewLease(c) => apply_cohort_renew_sql(tx, shard, seq, now, c),
        QueueCommand::FenceLease(ids) => fence_items(tx, shard, ids, true),
        QueueCommand::UnfenceLease(ids) => fence_items(tx, shard, ids, false),
        QueueCommand::PauseQueue(drain) => rel_done(
            tx,
            PAUSE_QUEUE,
            own_params(shard).flag(*drain),
        ),
        QueueCommand::ResumeQueue => rel_done(tx, RESUME_QUEUE, own_params(shard)),
        QueueCommand::WriteSideRecords(records) => apply_side_records_sql(tx, shard, records),
        QueueCommand::AdvanceInstanceFence(c) => rel_done(
            tx,
            ADVANCE_FENCE,
            own_params(shard).blob(&c.instance_key).number(c.next as i64),
        ),
        _ => Ok(()),
    }
}

/// Tells the store of one command. What is to become of live lease tokens is noted in the memory,
/// for after the transaction.
pub fn apply_command_sql<T: RelTx + RelCodec>(
    tx: &mut RelSession<T>,
    queues: &Queues,
    memory: &mut DriverMemory,
    shard: &QueueKey,
    position: &CommandPosition,
    seq: u64,
    now: UtcTimestamp,
    command: &QueueCommand,
) -> (r: EngineResult<()>)
    ensures
        held(
            old(tx).trace(),
            final(tx).trace(),
            commands(
                old(memory)@,
                queues@,
                shard@,
                position.backend_epoch,
                seq,
                now,
                *command,
            ),
            (final(memory)@, outcome(r)),
        ),
{
    proof {
        lemma_start(
            tx.trace(),
            commands(memory@, queues@, shard@, position.backend_epoch, seq, now, *command),
        );
    }
    match command {
        QueueCommand::CreateQueue => {
            open_queue(memory, shard);
            Ok(())
        },
        QueueCommand::Push(items) => {
            let specs = specs_for(items, seq, now);
            apply_push_specs_sql(tx, queues, memory, shard, &specs, now)
        },
        QueueCommand::Claim(c) => apply_claim_sql(tx, memory, shard, seq, now, c),
        QueueCommand::CohortClaim(c) => apply_cohort_claim_sql(tx, memory, shard, seq, now, c),
        QueueCommand::ReassignLease(c) => apply_reassign_sql(tx, memory, shard, seq, now, c),
        QueueCommand::UpdateFields(c) => apply_update_fields_sql(
            tx,
            queues,
            memory,
            shard,
            seq,
            now,
            c,
        ),
        QueueCommand::UpdateFieldsBatch(list) => {
            let mut refs: Vec<&UpdateFieldsCommand> = Vec::new();
            add_refs(&mut refs, list);
            assert(derefs(refs@) =~= list@);
            apply_update_fields_batch_sql(tx, queues, memory, shard, seq, now, &refs)
        },
        QueueCommand::MutateItems(c) => apply_mutate_sql(
            tx,
            queues,
            memory,
            shard,
            position,
            seq,
            now,
            c,
        ),
        QueueCommand::Finalize(o) => apply_finalize_sql(
            tx,
            queues,
            memory,
            shard,
            position,
            seq,
            now,
            o,
        ),
        QueueCommand::CohortFinalize(c) => apply_cohort_finalize_sql(
            tx,
            queues,
            memory,
            shard,
            position,
            seq,
            now,
            c,
        ),
        QueueCommand::ReplacePending(c) => apply_replace_sql(
            tx,
            queues,
            memory,
            shard,
            seq,
            now,
            c,
        ),
        QueueCommand::LeaseExpired(ids) => apply_lease_expired_sql(
            tx,
            memory,
            shard,
            seq,
            now,
            ids,
        ),
        QueueCommand::CohortExpired(group) => apply_cohort_expired_sql(
            tx,
            queues,
            memory,
            shard,
            position,
            seq,
            now,
            group,
        ),
        QueueCommand::SetGates(c) => apply_set_gates_sql(tx, memory, shard, c),
        QueueCommand::PurgeItems(c) => apply_purge_sql(
            tx,
            queues,
            memory,
            shard,
            now,
            &c.item_ids,
        ),
        _ => apply_settled_sql(tx, shard, seq, now, command),
    }
}

} // verus!
