//! Committed commands, in the store.

use crate::order::{OrdMap, ascending, lemma_listing_of, listing_of};
use crate::relational::batch::{add_refs, all_whole, apply_update_fields_batch_sql, derefs, is_whole, update_fields_batch_is_set_based, updates_batch, whole};
use crate::relational::codec::nanos;
use crate::relational::cohorts::Queues;
use crate::relational::command::{apply_command_sql, commands};
use crate::relational::exec::{RelCodec, RelSession, RelTx, first, lemma_read_once, query_optional, rel_done};
use crate::relational::leases::{apply_fused_claim_complete_sql, completes, finalize_completes_claim, fuses};
use crate::relational::memory::{DriverMemory, Kept, MemoryV, hold, pass};
use crate::relational::push::{apply_push_run_sql, pushes_run};
use crate::relational::query::{own, own_params};
use crate::relational::requests::{keeps_outcome, persist_request_outcome_sql};
use crate::relational::script::{Exchange, Reply, Said, Script, bind, chain, done, each, group_talk, held, lemma_start, reached};
use crate::relational::tokens::{collect_token_ops_from_command, lemma_tokens_frame, tokens_collected};
use crate::relational::value::{CellV, column};
use crate::text::{int_numeral, push_i64};
use crate::types::{CommandEnvelope, CommandPosition, EngineError, EngineResult, ErrorV, QueueCommand, QueueDefinition, QueueKey, QueueV, UpdateFieldsCommand, outcome};
use vstd::prelude::*;
use vstd::string::*;

verus! {

broadcast use group_talk;

pub const SELECT_NEXT_SEQUENCE: &'static str = "SELECT next_seq FROM relational_cursor WHERE tenant=?1 AND queue=?2";

pub const STORE_CURSOR: &'static str = "UPDATE relational_cursor SET \
             next_seq=?3, \
             assignment_epoch=CASE WHEN assignment_epoch<?4 THEN ?4 ELSE assignment_epoch END \
             WHERE tenant=?1 AND queue=?2";

/// How far each queue has come in a batch, the greatest epoch met in each, and whether an update
/// was applied.
pub struct Progress {
    pub next_seq: OrdMap<QueueKey, i64>,
    pub max_epoch: OrdMap<QueueKey, i64>,
    pub applied_update_fields: bool,
}

pub ghost struct ProgressV {
    pub next: Map<QueueV, i64>,
    pub epochs: Map<QueueV, i64>,
    pub applied: bool,
}

impl Progress {
    pub open spec fn view(&self) -> ProgressV {
        ProgressV {
            next: self.next_seq@,
            epochs: self.max_epoch@,
            applied: self.applied_update_fields,
        }
    }
}

pub open spec fn no_progress() -> ProgressV {
    ProgressV { next: Map::empty(), epochs: Map::empty(), applied: false }
}

/// The greatest epoch of a queue, with one more.
pub open spec fn epoch_raised(epochs: Map<QueueV, i64>, q: QueueV, e: i64) -> Map<QueueV, i64> {
    epochs.insert(
        q,
        if epochs.contains_key(q) && epochs[q] >= e {
            epochs[q]
        } else {
            e
        },
    )
}

fn raise_epoch(epochs: &mut OrdMap<QueueKey, i64>, queue: &QueueKey, e: i64)
    ensures
        final(epochs)@ == epoch_raised(old(epochs)@, queue@, e),
{
    let held_epoch = match epochs.get(queue) {
        Some(v) => if *v >= e {
            *v
        } else {
            e
        },
        None => e,
    };
    epochs.insert(queue.duplicate(), held_epoch);
}

/// The sequence after one.
pub open spec fn sequence_after(seq: i64) -> Result<i64, ErrorV> {
    if seq == i64::MAX {
        Err(ErrorV::Storage("command sequence overflow"@))
    } else {
        Ok((seq + 1) as i64)
    }
}

fn next_sequence(seq: i64) -> (r: EngineResult<i64>)
    ensures
        outcome(r) == sequence_after(seq),
{
    if seq == i64::MAX {
        Err(EngineError::Storage("command sequence overflow".to_owned()))
    } else {
        Ok(seq + 1)
    }
}

/// The sequence that a queue waits for: as far as it has come, or else as the store has it.
pub open spec fn asks_cursor(next: Map<QueueV, i64>, q: QueueV) -> Script<Result<i64, ErrorV>> {
    if next.contains_key(q) {
        Script::Done(Ok(next[q]))
    } else {
        chain(
            first(SELECT_NEXT_SEQUENCE@, own(q)),
            |row: Option<Seq<CellV>>|
                Script::Done(
                    match row {
                        None => Err::<i64, ErrorV>(ErrorV::NotFound),
                        Some(r) => column::<i64>(r, 0),
                    },
                ),
        )
    }
}

fn find_cursor<T: RelTx>(
    tx: &mut RelSession<T>,
    next: &OrdMap<QueueKey, i64>,
    shard: &QueueKey,
) -> (r: EngineResult<i64>)
    ensures
        held(old(tx).trace(), final(tx).trace(), asks_cursor(next@, shard@), outcome(r)),
{
    proof {
        lemma_start(tx.trace(), asks_cursor(next@, shard@));
    }
    match next.get(shard) {
        Some(v) => return Ok(*v),
        None => {},
    }
    match query_optional(tx, SELECT_NEXT_SEQUENCE, own_params(shard)) {
        Err(e) => Err(e),
        Ok(None) => Err(EngineError::NotFound),
        Ok(Some(row)) => row.get::<i64>(0),
    }
}

/// A command came before its turn.
pub open spec fn gap(q: QueueV, cursor: i64, incoming: i64) -> ErrorV {
    ErrorV::Storage(
        "relational projection replay gap for "@ + q.tenant_id + ":"@ + q.queue_id
            + ": expected sequence "@ + int_numeral(cursor as int) + ", got "@ + int_numeral(
            incoming as int,
        ),
    )
}

fn gap_error(shard: &QueueKey, cursor: i64, incoming: i64) -> (r: EngineError)
    ensures
        r@ == gap(shard@, cursor, incoming),
{
    let mut t = "relational projection replay gap for ".to_owned();
    t.append(shard.tenant_id.as_str());
    t.append(":");
    t.append(shard.queue_id.as_str());
    t.append(": expected sequence ");
    push_i64(&mut t, cursor);
    t.append(", got ");
    push_i64(&mut t, incoming);
    EngineError::Storage(t)
}

/// The command only replaces whole values of items.
pub open spec fn set_based(c: QueueCommand) -> bool {
    match c {
        QueueCommand::UpdateFields(u) => whole(u),
        QueueCommand::UpdateFieldsBatch(list) => all_whole(list@),
        _ => false,
    }
}

pub fn command_is_set_based_update(command: &QueueCommand) -> (r: bool)
    ensures
        r == set_based(*command),
{
    match command {
        QueueCommand::UpdateFields(u) => is_whole(u),
        QueueCommand::UpdateFieldsBatch(list) => update_fields_batch_is_set_based(list),
        _ => false,
    }
}

pub open spec fn after_sequence(s: u64) -> u64 {
    if s == u64::MAX {
        s
    } else {
        (s + 1) as u64
    }
}

/// Where a run of whole updates of one queue, one sequence after the other, ends.
pub open spec fn update_end(
    q: QueueV,
    ps: Seq<CommandPosition>,
    es: Seq<CommandEnvelope>,
    k: int,
    expected: u64,
) -> int
    decreases ps.len() - k,
{
    if k >= ps.len() || ps[k].queue@ != q || !set_based(es[k].command) || ps[k].sequence
        != expected {
        k
    } else {
        update_end(q, ps, es, k + 1, after_sequence(expected))
    }
}

pub proof fn lemma_update_end(
    q: QueueV,
    ps: Seq<CommandPosition>,
    es: Seq<CommandEnvelope>,
    k: int,
    expected: u64,
)
    requires
        k <= ps.len(),
    ensures
        k <= update_end(q, ps, es, k, expected) <= ps.len(),
    decreases ps.len() - k,
{
    if !(k >= ps.len() || ps[k].queue@ != q || !set_based(es[k].command) || ps[k].sequence
        != expected) {
        lemma_update_end(q, ps, es, k + 1, after_sequence(expected));
    }
}

/// Where the run of whole updates that starts at a place ends.
pub open spec fn update_run_end(ps: Seq<CommandPosition>, es: Seq<CommandEnvelope>, i: int) -> int {
    update_end(ps[i].queue@, ps, es, i + 1, after_sequence(ps[i].sequence))
}

/// The end of the run of whole updates that starts at a place, if one does.
pub fn coalescible_update_run_end(
    positions: &Vec<CommandPosition>,
    envelopes: &Vec<CommandEnvelope>,
    start: usize,
) -> (r: Option<usize>)
    requires
        positions@.len() == envelopes@.len(),
    ensures
        match r {
            None => start >= envelopes@.len() || !set_based(envelopes@[start as int].command),
            Some(end) => {
                &&& start < end <= positions@.len()
                &&& set_based(envelopes@[start as int].command)
                &&& end == update_run_end(positions@, envelopes@, start as int)
            },
        },
{
    if start >= envelopes.len() {
        return None;
    }
    if !command_is_set_based_update(&envelopes[start].command) {
        return None;
    }
    let shard = &positions[start].queue;
    let mut expected: u64 = if positions[start].sequence == u64::MAX {
        u64::MAX
    } else {
        positions[start].sequence + 1
    };
    let mut end: usize = start + 1;
    while end < positions.len()
        invariant_except_break
            start < end <= positions@.len(),
            positions@.len() == envelopes@.len(),
            *shard == positions@[start as int].queue,
            update_end(shard@, positions@, envelopes@, end as int, expected) == update_run_end(
                positions@,
                envelopes@,
                start as int,
            ),
        ensures
            start < end <= positions@.len(),
            end == update_run_end(positions@, envelopes@, start as int),
        decreases positions@.len() - end,
    {
        if !positions[end].queue.same(shard) || !command_is_set_based_update(
            &envelopes[end].command,
        ) {
            break;
        }
        if positions[end].sequence != expected {
            break;
        }
        expected = if expected == u64::MAX {
            u64::MAX
        } else {
            expected + 1
        };
        end = end + 1;
    }
    Some(end)
}

/// Where a run of pushes to one queue ends. Those before the expected sequence are passed over; one
/// after it ends the run.
pub open spec fn push_end(
    q: QueueV,
    ps: Seq<CommandPosition>,
    es: Seq<CommandEnvelope>,
    k: int,
    expected: i64,
) -> Result<int, ErrorV>
    decreases ps.len() - k,
{
    if k >= ps.len() || ps[k].queue@ != q || !(es[k].command is Push) {
        Ok(k)
    } else if (ps[k].sequence as i64) < expected {
        push_end(q, ps, es, k + 1, expected)
    } else if (ps[k].sequence as i64) > expected {
        Ok(k)
    } else {
        match sequence_after(expected) {
            Err(e) => Err(e),
            Ok(n) => push_end(q, ps, es, k + 1, n),
        }
    }
}

pub proof fn lemma_push_end(
    q: QueueV,
    ps: Seq<CommandPosition>,
    es: Seq<CommandEnvelope>,
    k: int,
    expected: i64,
)
    requires
        k <= ps.len(),
    ensures
        match push_end(q, ps, es, k, expected) {
            Ok(end) => k <= end <= ps.len(),
            Err(_) => true,
        },
    decreases ps.len() - k,
{
    if !(k >= ps.len() || ps[k].queue@ != q || !(es[k].command is Push)) {
        if (ps[k].sequence as i64) < expected {
            lemma_push_end(q, ps, es, k + 1, expected);
        } else if (ps[k].sequence as i64) == expected {
            match sequence_after(expected) {
                Ok(n) => lemma_push_end(q, ps, es, k + 1, n),
                Err(_) => {},
            }
        }
    }
}

/// Where the run of pushes that starts at a place ends.
pub open spec fn push_run_end(ps: Seq<CommandPosition>, es: Seq<CommandEnvelope>, i: int) -> Result<
    int,
    ErrorV,
> {
    match sequence_after(ps[i].sequence as i64) {
        Err(e) => Err(e),
        Ok(n) => push_end(ps[i].queue@, ps, es, i + 1, n),
    }
}

fn is_push(command: &QueueCommand) -> (r: bool)
    ensures
        r == (*command is Push),
{
    match command {
        QueueCommand::Push(_) => true,
        _ => false,
    }
}

fn find_push_run_end(
    positions: &Vec<CommandPosition>,
    envelopes: &Vec<CommandEnvelope>,
    start: usize,
) -> (r: EngineResult<usize>)
    requires
        positions@.len() == envelopes@.len(),
        start < positions@.len(),
    ensures
        match r {
            Ok(end) => {
                &&& start < end <= positions@.len()
                &&& push_run_end(positions@, envelopes@, start as int) == Ok::<int, ErrorV>(
                    end as int,
                )
            },
            Err(e) => push_run_end(positions@, envelopes@, start as int) == Err::<int, ErrorV>(
                e@,
            ),
        },
{
    let n = positions.len();
    let shard = &positions[start].queue;
    let ghost whole_run = push_run_end(positions@, envelopes@, start as int);
    let mut expected = match next_sequence(positions[start].sequence as i64) {
        Err(e) => return Err(e),
        Ok(n) => n,
    };
    let mut end: usize = start + 1;
    while end < positions.len()
        invariant_except_break
            start < end <= positions@.len(),
            positions@.len() == envelopes@.len(),
            *shard == positions@[start as int].queue,
            whole_run == push_run_end(positions@, envelopes@, start as int),
            push_end(shard@, positions@, envelopes@, end as int, expected) == whole_run,
        ensures
            start < end <= positions@.len(),
            whole_run == Ok::<int, ErrorV>(end as int),
        decreases positions@.len() - end,
    {
        if !positions[end].queue.same(shard) || !is_push(&envelopes[end].command) {
            break;
        }
        let seq = positions[end].sequence as i64;
        if seq < expected {
            end = end + 1;
            continue;
        }
        if seq > expected {
            break;
        }
        expected = match next_sequence(seq) {
            Err(e) => return Err(e),
            Ok(n) => n,
        };
        end = end + 1;
    }
    Ok(end)
}

/// The updates of a run, one after the other.
pub open spec fn run_updates(es: Seq<CommandEnvelope>) -> Seq<UpdateFieldsCommand>
    decreases es.len(),
{
    if es.len() == 0 {
        Seq::empty()
    } else {
        let before = run_updates(es.drop_last());
        match es.last().command {
            QueueCommand::UpdateFields(u) => before.push(u),
            QueueCommand::UpdateFieldsBatch(list) => before + list@,
            _ => before,
        }
    }
}

fn gather_updates<'a>(envelopes: &'a Vec<CommandEnvelope>, from: usize, to: usize) -> (r: Vec<
    &'a UpdateFieldsCommand,
>)
    requires
        from <= to <= envelopes@.len(),
    ensures
        derefs(r@) == run_updates(envelopes@.subrange(from as int, to as int)),
{
    let ghost es = envelopes@.subrange(from as int, to as int);
    let mut out: Vec<&'a UpdateFieldsCommand> = Vec::new();
    let mut i: usize = from;
    assert(es.take(0) =~= Seq::<CommandEnvelope>::empty());
    assert(derefs(out@) =~= Seq::<UpdateFieldsCommand>::empty());
    while i < to
        invariant
            from <= i <= to <= envelopes@.len(),
            es == envelopes@.subrange(from as int, to as int),
            derefs(out@) == run_updates(es.take(i - from)),
        decreases to - i,
    {
        proof {
            let k = i - from;
            assert(es.take(k + 1).drop_last() =~= es.take(k));
            assert(es.take(k + 1).last() == envelopes@[i as int]);
        }
        match &envelopes[i].command {
            QueueCommand::UpdateFields(u) => {
                let ghost before = out@;
                out.push(u);
                assert(derefs(out@) =~= derefs(before).push(*u));
            },
            QueueCommand::UpdateFieldsBatch(list) => add_refs(&mut out, list),
            _ => {},
        }
        i = i + 1;
    }
    assert(es.take(to - from) =~= es);
    out
}

/// The outcomes of a run's requests are kept, from one place on. Commands before the expected
/// sequence are passed over where that is asked for.
pub open spec fn settles_run(
    queues: Map<QueueV, QueueDefinition>,
    ps: Seq<CommandPosition>,
    es: Seq<CommandEnvelope>,
    skip: bool,
    k: int,
    expected: i64,
    epochs: Map<QueueV, i64>,
) -> Script<Result<(i64, Map<QueueV, i64>), ErrorV>>
    decreases ps.len() - k,
{
    if k >= ps.len() {
        Script::Done(Ok((expected, epochs)))
    } else if skip && (ps[k].sequence as i64) < expected {
        settles_run(queues, ps, es, skip, k + 1, expected, epochs)
    } else {
        chain(
            keeps_outcome(queues, ps[k].queue@, es[k], ps[k]),
            |u: ()|
                match sequence_after(ps[k].sequence as i64) {
                    Err(e) => Script::Done(Err::<(i64, Map<QueueV, i64>), ErrorV>(e)),
                    Ok(n) => settles_run(
                        queues,
                        ps,
                        es,
                        skip,
                        k + 1,
                        n,
                        epoch_raised(epochs, ps[k].queue@, ps[k].backend_epoch as i64),
                    ),
                },
        )
    }
}

fn settle_run<T: RelTx + RelCodec>(
    tx: &mut RelSession<T>,
    queues: &Queues,
    positions: &Vec<CommandPosition>,
    envelopes: &Vec<CommandEnvelope>,
    from: usize,
    to: usize,
    skip: bool,
    expected: i64,
    epochs: &mut OrdMap<QueueKey, i64>,
) -> (r: EngineResult<i64>)
    requires
        from <= to <= positions@.len(),
        positions@.len() == envelopes@.len(),
    ensures
        held(
            old(tx).trace(),
            final(tx).trace(),
            settles_run(
                queues@,
                positions@.subrange(from as int, to as int),
                envelopes@.subrange(from as int, to as int),
                skip,
                0,
                expected,
                old(epochs)@,
            ),
            (match r {
                Ok(n) => Ok((n, final(epochs)@)),
                Err(e) => Err(e@),
            }),
        ),
{
    let ghost ps = positions@.subrange(from as int, to as int);
    let ghost es = envelopes@.subrange(from as int, to as int);
    let ghost first_epochs = epochs@;
    let ghost prog = settles_run(queues@, ps, es, skip, 0, expected, first_epochs);
    let ghost start = tx.trace();
    let mut exp: i64 = expected;
    let mut i: usize = from;
    proof {
        lemma_start(start, prog);
    }
    while i < to
        invariant
            from <= i <= to <= positions@.len(),
            positions@.len() == envelopes@.len(),
            ps == positions@.subrange(from as int, to as int),
            es == envelopes@.subrange(from as int, to as int),
            start == old(tx).trace(),
            first_epochs == old(epochs)@,
            prog == settles_run(queues@, ps, es, skip, 0, expected, first_epochs),
            reached(
                start,
                tx.trace(),
                prog,
                settles_run(queues@, ps, es, skip, i - from, exp, epochs@),
            ),
        decreases to - i,
    {
        proof {
            assert(ps[i - from] == positions@[i as int]);
            assert(es[i - from] == envelopes@[i as int]);
        }
        let seq = positions[i].sequence as i64;
        if !(skip && seq < exp) {
            match persist_request_outcome_sql(
                tx,
                queues,
                &positions[i].queue,
                &envelopes[i],
                &positions[i],
            ) {
                Err(e) => return Err(e),
                Ok(_) => {},
            }
            exp = match next_sequence(seq) {
                Err(e) => return Err(e),
                Ok(n) => n,
            };
            raise_epoch(epochs, &positions[i].queue, positions[i].backend_epoch as i64);
        }
        i = i + 1;
    }
    Ok(exp)
}

/// A claim and the command that completes all it claimed stand side by side.
pub open spec fn fusable(ps: Seq<CommandPosition>, es: Seq<CommandEnvelope>, i: int) -> bool {
    &&& i + 1 < ps.len()
    &&& es[i].command is Claim
    &&& ps[i + 1].queue@ == ps[i].queue@
    &&& ps[i + 1].sequence == after_sequence(ps[i].sequence)
    &&& es[i + 1].command is Finalize
    &&& completes(
        es[i].command->Claim_0.item_ids@,
        es[i + 1].command->Finalize_0@,
    )
}

fn is_fusable(positions: &Vec<CommandPosition>, envelopes: &Vec<CommandEnvelope>, i: usize) -> (r:
    bool)
    requires
        positions@.len() == envelopes@.len(),
        i < positions@.len(),
    ensures
        r == fusable(positions@, envelopes@, i as int),
{
    let n = positions.len();
    if i + 1 >= n {
        return false;
    }
    if !positions[i + 1].queue.same(&positions[i].queue) {
        return false;
    }
    let after: u64 = if positions[i].sequence == u64::MAX {
        u64::MAX
    } else {
        positions[i].sequence + 1
    };
    if positions[i + 1].sequence != after {
        return false;
    }
    match (&envelopes[i].command, &envelopes[i + 1].command) {
        (QueueCommand::Claim(claim), QueueCommand::Finalize(outcomes)) => finalize_completes_claim(
            claim,
            outcomes,
        ),
        _ => false,
    }
}

pub open spec fn progressed(p: ProgressV, q: QueueV, next: i64, epoch: i64) -> ProgressV {
    ProgressV {
        next: p.next.insert(q, next),
        epochs: epoch_raised(p.epochs, q, epoch),
        ..p
    }
}

pub type Stepped = Script<Kept<ProgressV>>;

/// A claim and its completion are told as one.
#[verifier::opaque]
pub open spec fn fused_step(
    m: MemoryV,
    p: ProgressV,
    queues: Map<QueueV, QueueDefinition>,
    a: CommandPosition,
    ea: CommandEnvelope,
    b: CommandPosition,
    eb: CommandEnvelope,
) -> Stepped {
    let q = a.queue@;
    pass(
        fuses(
            m,
            q,
            b.backend_epoch,
            b.sequence,
            eb.created_at,
            ea.command->Claim_0.item_ids@,
            ea.command->Claim_0.lease_token@,
        ),
        |n: MemoryV, u: ()|
            hold(
                n,
                keeps_outcome(queues, q, ea, a),
                |v: ()|
                    hold(
                        n,
                        keeps_outcome(queues, b.queue@, eb, b),
                        |w: ()|
                            match sequence_after(b.sequence as i64) {
                                Err(e) => Script::Done((n, Err::<ProgressV, ErrorV>(e))),
                                Ok(next) => Script::Done(
                                    (
                                        n,
                                        Ok::<ProgressV, ErrorV>(
                                            progressed(p, q, next, b.backend_epoch as i64),
                                        ),
                                    ),
                                ),
                            },
                    ),
            ),
    )
}

pub open spec fn step_outcome(r: EngineResult<()>, p: ProgressV) -> Result<ProgressV, ErrorV> {
    match r {
        Ok(_) => Ok(p),
        Err(e) => Err(e@),
    }
}

fn fuse_two<T: RelTx + RelCodec>(
    tx: &mut RelSession<T>,
    queues: &Queues,
    memory: &mut DriverMemory,
    progress: &mut Progress,
    a: &CommandPosition,
    ea: &CommandEnvelope,
    b: &CommandPosition,
    eb: &CommandEnvelope,
) -> (r: EngineResult<()>)
    requires
        ea.command is Claim,
    ensures
        held(
            old(tx).trace(),
            final(tx).trace(),
            fused_step(old(memory)@, old(progress)@, queues@, *a, *ea, *b, *eb),
            (final(memory)@, step_outcome(r, final(progress)@)),
        ),
{
    proof {
        reveal(fused_step);
        lemma_start(
            tx.trace(),
            fused_step(memory@, progress@, queues@, *a, *ea, *b, *eb),
        );
    }
    match &ea.command {
        QueueCommand::Claim(claim) => match apply_fused_claim_complete_sql(
            tx,
            memory,
            &a.queue,
            b,
            eb.created_at,
            claim,
        ) {
            Err(e) => return Err(e),
            Ok(_) => {},
        },
        _ => return Ok(()),
    }
    match persist_request_outcome_sql(tx, queues, &a.queue, ea, a) {
        Err(e) => return Err(e),
        Ok(_) => {},
    }
    match persist_request_outcome_sql(tx, queues, &b.queue, eb, b) {
        Err(e) => return Err(e),
        Ok(_) => {},
    }
    let next = match next_sequence(b.sequence as i64) {
        Err(e) => return Err(e),
        Ok(n) => n,
    };
    progress.next_seq.insert(a.queue.duplicate(), next);
    raise_epoch(&mut progress.max_epoch, &a.queue, b.backend_epoch as i64);
    Ok(())
}

/// A run of pushes is told as one.
#[verifier::opaque]
pub open spec fn push_step(
    m: MemoryV,
    p: ProgressV,
    queues: Map<QueueV, QueueDefinition>,
    q: QueueV,
    ps: Seq<CommandPosition>,
    es: Seq<CommandEnvelope>,
    cursor: i64,
) -> Stepped {
    pass(
        pushes_run(m, queues, q, ps, es, cursor),
        |n: MemoryV, u: ()|
            hold(
                n,
                settles_run(queues, ps, es, true, 0, cursor, p.epochs),
                |x: (i64, Map<QueueV, i64>)|
                    Script::Done(
                        (
                            n,
                            Ok::<ProgressV, ErrorV>(
                                ProgressV { next: p.next.insert(q, x.0), epochs: x.1, ..p },
                            ),
                        ),
                    ),
            ),
    )
}

fn push_together<T: RelTx + RelCodec>(
    tx: &mut RelSession<T>,
    queues: &Queues,
    memory: &mut DriverMemory,
    progress: &mut Progress,
    shard: &QueueKey,
    positions: &Vec<CommandPosition>,
    envelopes: &Vec<CommandEnvelope>,
    from: usize,
    to: usize,
    cursor: i64,
) -> (r: EngineResult<()>)
    requires
        from <= to <= positions@.len(),
        positions@.len() == envelopes@.len(),
    ensures
        held(
            old(tx).trace(),
            final(tx).trace(),
            push_step(
                old(memory)@,
                old(progress)@,
                queues@,
                shard@,
                positions@.subrange(from as int, to as int),
                envelopes@.subrange(from as int, to as int),
                cursor,
            ),
            (final(memory)@, step_outcome(r, final(progress)@)),
        ),
{
    proof {
        reveal(push_step);
        lemma_start(
            tx.trace(),
            push_step(
                memory@,
                progress@,
                queues@,
                shard@,
                positions@.subrange(from as int, to as int),
                envelopes@.subrange(from as int, to as int),
                cursor,
            ),
        );
    }
    match apply_push_run_sql(
        tx,
        queues,
        memory,
        shard,
        positions,
        envelopes,
        from,
        to,
        cursor,
    ) {
        Err(e) => return Err(e),
        Ok(_) => {},
    }
    let next = match settle_run(
        tx,
        queues,
        positions,
        envelopes,
        from,
        to,
        true,
        cursor,
        &mut progress.max_epoch,
    ) {
        Err(e) => return Err(e),
        Ok(n) => n,
    };
    progress.next_seq.insert(shard.duplicate(), next);
    Ok(())
}

/// A run of whole updates is told as one, at the sequence and the time of the last.
#[verifier::opaque]
pub open spec fn update_together_step(
    m: MemoryV,
    p: ProgressV,
    queues: Map<QueueV, QueueDefinition>,
    q: QueueV,
    ps: Seq<CommandPosition>,
    es: Seq<CommandEnvelope>,
    incoming: i64,
) -> Stepped {
    pass(
        updates_batch(
            m,
            queues,
            q,
            ps.last().sequence,
            nanos(es.last().created_at),
            run_updates(es),
        ),
        |n: MemoryV, u: ()|
            hold(
                n,
                settles_run(queues, ps, es, false, 0, incoming, p.epochs),
                |x: (i64, Map<QueueV, i64>)|
                    Script::Done(
                        (
                            n,
                            Ok::<ProgressV, ErrorV>(
                                ProgressV {
                                    next: p.next.insert(q, x.0),
                                    epochs: x.1,
                                    applied: true,
                                },
                            ),
                        ),
                    ),
            ),
    )
}

fn update_together<T: RelTx + RelCodec>(
    tx: &mut RelSession<T>,
    queues: &Queues,
    memory: &mut DriverMemory,
    progress: &mut Progress,
    shard: &QueueKey,
    positions: &Vec<CommandPosition>,
    envelopes: &Vec<CommandEnvelope>,
    from: usize,
    to: usize,
    incoming: i64,
) -> (r: EngineResult<()>)
    requires
        from < to <= positions@.len(),
        positions@.len() == envelopes@.len(),
    ensures
        held(
            old(tx).trace(),
            final(tx).trace(),
            update_together_step(
                old(memory)@,
                old(progress)@,
                queues@,
                shard@,
                positions@.subrange(from as int, to as int),
                envelopes@.subrange(from as int, to as int),
                incoming,
            ),
            (final(memory)@, step_outcome(r, final(progress)@)),
        ),
{
    let ghost ps = positions@.subrange(from as int, to as int);
    let ghost es = envelopes@.subrange(from as int, to as int);
    proof {
        reveal(update_together_step);
        lemma_start(
            tx.trace(),
            update_together_step(memory@, progress@, queues@, shard@, ps, es, incoming),
        );
        assert(ps.last() == positions@[to as int - 1]);
        assert(es.last() == envelopes@[to as int - 1]);
    }
    let updates = gather_updates(envelopes, from, to);
    match apply_update_fields_batch_sql(
        tx,
        queues,
        memory,
        shard,
        positions[to - 1].sequence,
        envelopes[to - 1].created_at,
        &updates,
    ) {
        Err(e) => return Err(e),
        Ok(_) => {},
    }
    let next = match settle_run(
        tx,
        queues,
        positions,
        envelopes,
        from,
        to,
        false,
        incoming,
        &mut progress.max_epoch,
    ) {
        Err(e) => return Err(e),
        Ok(n) => n,
    };
    progress.next_seq.insert(shard.duplicate(), next);
    progress.applied_update_fields = true;
    Ok(())
}

/// The command changes items' values.
pub open spec fn is_update(c: QueueCommand) -> bool {
    c is UpdateFields || c is UpdateFieldsBatch
}

/// One command alone.
#[verifier::opaque]
pub open spec fn single_step(
    m: MemoryV,
    p: ProgressV,
    queues: Map<QueueV, QueueDefinition>,
    a: CommandPosition,
    ea: CommandEnvelope,
) -> Stepped {
    let q = a.queue@;
    pass(
        commands(m, queues, q, a.backend_epoch, a.sequence, ea.created_at, ea.command),
        |n: MemoryV, u: ()|
            hold(
                n,
                keeps_outcome(queues, q, ea, a),
                |v: ()|
                    match sequence_after(a.sequence as i64) {
                        Err(e) => Script::Done((n, Err::<ProgressV, ErrorV>(e))),
                        Ok(next) => Script::Done(
                            (
                                n,
                                Ok::<ProgressV, ErrorV>(
                                    progressed(
                                        ProgressV {
                                            applied: p.applied || is_update(ea.command),
                                            ..p
                                        },
                                        q,
                                        next,
                                        a.backend_epoch as i64,
                                    ),
                                ),
                            ),
                        ),
                    },
            ),
    )
}

fn apply_single<T: RelTx + RelCodec>(
    tx: &mut RelSession<T>,
    queues: &Queues,
    memory: &mut DriverMemory,
    progress: &mut Progress,
    a: &CommandPosition,
    ea: &CommandEnvelope,
) -> (r: EngineResult<()>)
    ensures
        held(
            old(tx).trace(),
            final(tx).trace(),
            single_step(old(memory)@, old(progress)@, queues@, *a, *ea),
            (final(memory)@, step_outcome(r, final(progress)@)),
        ),
{
    proof {
        reveal(single_step);
        lemma_start(tx.trace(), single_step(memory@, progress@, queues@, *a, *ea));
    }
    match apply_command_sql(
        tx,
        queues,
        memory,
        &a.queue,
        a,
        a.sequence,
        ea.created_at,
        &ea.command,
    ) {
        Err(e) => return Err(e),
        Ok(_) => {},
    }
    match persist_request_outcome_sql(tx, queues, &a.queue, ea, a) {
        Err(e) => return Err(e),
        Ok(_) => {},
    }
    let next = match next_sequence(a.sequence as i64) {
        Err(e) => return Err(e),
        Ok(n) => n,
    };
    match &ea.command {
        QueueCommand::UpdateFields(_) => {
            progress.applied_update_fields = true;
        },
        QueueCommand::UpdateFieldsBatch(_) => {
            progress.applied_update_fields = true;
        },
        _ => {},
    }
    progress.next_seq.insert(a.queue.duplicate(), next);
    raise_epoch(&mut progress.max_epoch, &a.queue, a.backend_epoch as i64);
    Ok(())
}

/// How far a queue has come is stored.
pub open spec fn stores_cursor(p: ProgressV) -> spec_fn(QueueV) -> Script<Result<(), ErrorV>> {
    |q: QueueV|
        done(
            STORE_CURSOR@,
            own(q).push(CellV::Integer(p.next[q])).push(
                CellV::Integer(
                    if p.epochs.contains_key(q) {
                        p.epochs[q]
                    } else {
                        0
                    },
                ),
            ),
        )
}

pub open spec fn stores_cursors(p: ProgressV) -> Script<Result<(), ErrorV>> {
    each(listing_of::<QueueKey>(p.next.dom()), stores_cursor(p))
}

fn store_cursors<T: RelTx>(tx: &mut RelSession<T>, progress: &Progress) -> (r: EngineResult<()>)
    ensures
        held(old(tx).trace(), final(tx).trace(), stores_cursors(progress@), outcome(r)),
{
    let ghost all = listing_of::<QueueKey>(progress@.next.dom());
    let ghost f = stores_cursor(progress@);
    let ghost prog = stores_cursors(progress@);
    let ghost start = tx.trace();
    let n = progress.next_seq.len();
    let mut i: usize = 0;
    proof {
        lemma_start(start, prog);
        assert(all.skip(0) =~= all);
    }
    while i < n
        invariant
            i <= n,
            n == all.len(),
            all == progress.next_seq.listing(),
            all == listing_of::<QueueKey>(progress@.next.dom()),
            forall|j: int|
                0 <= j < all.len() ==> progress.next_seq@[#[trigger] all[j]]
                    == progress.next_seq.values()[j],
            start == old(tx).trace(),
            f == stores_cursor(progress@),
            prog == stores_cursors(progress@),
            reached(start, tx.trace(), prog, each(all.skip(i as int), f)),
        decreases n - i,
    {
        proof {
            assert(all.skip(i as int)[0] == all[i as int]);
            assert(all.skip(i as int).drop_first() =~= all.skip(i as int + 1));
        }
        let queue = progress.next_seq.key_at(i);
        let next = *progress.next_seq.value_at(i);
        assert(queue@ == all[i as int]);
        assert(next == progress@.next[queue@]);
        let epoch = match progress.max_epoch.get(queue) {
            Some(e) => *e,
            None => 0,
        };
        match rel_done(tx, STORE_CURSOR, own_params(queue).number(next).number(epoch)) {
            Err(e) => return Err(e),
            Ok(_) => {},
        }
        i = i + 1;
    }
    assert(all.skip(i as int) =~= Seq::<QueueV>::empty());
    Ok(())
}

/// A batch of committed commands from one place on. A command that the store already has only gives
/// its tokens; one out of turn is an error.
pub open spec fn commits_from(
    m: MemoryV,
    p: ProgressV,
    queues: Map<QueueV, QueueDefinition>,
    ps: Seq<CommandPosition>,
    es: Seq<CommandEnvelope>,
    i: int,
) -> Script<Kept<bool>>
    decreases ps.len() - i,
{
    if i < 0 || i >= ps.len() {
        hold(m, stores_cursors(p), |u: ()| Script::Done((m, Ok::<bool, ErrorV>(p.applied))))
    } else {
        proof {
            lemma_update_end(ps[i].queue@, ps, es, i + 1, after_sequence(ps[i].sequence));
            if sequence_after(ps[i].sequence as i64) is Ok {
                lemma_push_end(
                    ps[i].queue@,
                    ps,
                    es,
                    i + 1,
                    sequence_after(ps[i].sequence as i64)->Ok_0,
                );
            }
        }
        let q = ps[i].queue@;
        let incoming = ps[i].sequence as i64;
        hold(
            m,
            asks_cursor(p.next, q),
            |cursor: i64|
                {
                    let t = ProgressV { next: p.next.insert(q, cursor), ..p };
                    if incoming < cursor {
                        commits_from(
                            tokens_collected(m, q, es[i].command),
                            t,
                            queues,
                            ps,
                            es,
                            i + 1,
                        )
                    } else if incoming > cursor {
                        Script::Done((m, Err::<bool, ErrorV>(gap(q, cursor, incoming))))
                    } else if !queues.contains_key(q) {
                        Script::Done((m, Err::<bool, ErrorV>(ErrorV::NotFound)))
                    } else if fusable(ps, es, i) {
                        pass(
                            fused_step(m, t, queues, ps[i], es[i], ps[i + 1], es[i + 1]),
                            |n: MemoryV, u: ProgressV| commits_from(n, u, queues, ps, es, i + 2),
                        )
                    } else if es[i].command is Push {
                        match push_run_end(ps, es, i) {
                            Err(e) => Script::Done((m, Err::<bool, ErrorV>(e))),
                            Ok(end) => pass(
                                push_step(
                                    m,
                                    t,
                                    queues,
                                    q,
                                    ps.subrange(i, end),
                                    es.subrange(i, end),
                                    cursor,
                                ),
                                |n: MemoryV, u: ProgressV|
                                    commits_from(n, u, queues, ps, es, end),
                            ),
                        }
                    } else if set_based(es[i].command) {
                        pass(
                            update_together_step(
                                m,
                                t,
                                queues,
                                q,
                                ps.subrange(i, update_run_end(ps, es, i)),
                                es.subrange(i, update_run_end(ps, es, i)),
                                incoming,
                            ),
                            |n: MemoryV, u: ProgressV|
                                commits_from(n, u, queues, ps, es, update_run_end(ps, es, i)),
                        )
                    } else {
                        pass(
                            single_step(m, t, queues, ps[i], es[i]),
                            |n: MemoryV, u: ProgressV| commits_from(n, u, queues, ps, es, i + 1),
                        )
                    }
                },
        )
    }
}

/// A batch of committed commands.
pub open spec fn commits(
    m: MemoryV,
    queues: Map<QueueV, QueueDefinition>,
    ps: Seq<CommandPosition>,
    es: Seq<CommandEnvelope>,
) -> Script<Kept<bool>> {
    if ps.len() != es.len() {
        Script::Done(
            (
                m,
                Err(
                    ErrorV::Storage(
                        "apply_committed_batch: positions/envelopes length mismatch"@,
                    ),
                ),
            ),
        )
    } else if ps.len() == 0 {
        Script::Done((m, Ok(false)))
    } else {
        commits_from(m, no_progress(), queues, ps, es, 0)
    }
}

fn step<T: RelTx + RelCodec>(
    tx: &mut RelSession<T>,
    queues: &Queues,
    memory: &mut DriverMemory,
    progress: &mut Progress,
    positions: &Vec<CommandPosition>,
    envelopes: &Vec<CommandEnvelope>,
    i: usize,
    Ghost(start): Ghost<Seq<Exchange>>,
    Ghost(prog): Ghost<Script<Kept<bool>>>,
) -> (r: EngineResult<usize>)
    requires
        positions@.len() == envelopes@.len(),
        i < positions@.len(),
        reached(
            start,
            old(tx).trace(),
            prog,
            commits_from(
                old(memory)@,
                old(progress)@,
                queues@,
                positions@,
                envelopes@,
                i as int,
            ),
        ),
    ensures
        match r {
            Ok(j) => {
                &&& i < j <= positions@.len()
                &&& reached(
                    start,
                    final(tx).trace(),
                    prog,
                    commits_from(
                        final(memory)@,
                        final(progress)@,
                        queues@,
                        positions@,
                        envelopes@,
                        j as int,
                    ),
                )
            },
            Err(e) => held(
                start,
                final(tx).trace(),
                prog,
                (final(memory)@, Err::<bool, ErrorV>(e@)),
            ),
        },
{
    let n = positions.len();
    let pos = &positions[i];
    let cursor = match find_cursor(tx, &progress.next_seq, &pos.queue) {
        Err(e) => return Err(e),
        Ok(n) => n,
    };
    progress.next_seq.insert(pos.queue.duplicate(), cursor);
    let incoming = pos.sequence as i64;
    if incoming < cursor {
        collect_token_ops_from_command(memory, &pos.queue, &envelopes[i].command);
        return Ok(i + 1);
    }
    if incoming > cursor {
        return Err(gap_error(&pos.queue, cursor, incoming));
    }
    if !queues.contains_key(&pos.queue) {
        return Err(EngineError::NotFound);
    }
    if is_fusable(positions, envelopes, i) {
        return match fuse_two(
            tx,
            queues,
            memory,
            progress,
            pos,
            &envelopes[i],
            &positions[i + 1],
            &envelopes[i + 1],
        ) {
            Err(e) => Err(e),
            Ok(_) => Ok(i + 2),
        };
    }
    if is_push(&envelopes[i].command) {
        let end = match find_push_run_end(positions, envelopes, i) {
            Err(e) => return Err(e),
            Ok(end) => end,
        };
        return match push_together(
            tx,
            queues,
            memory,
            progress,
            &pos.queue,
            positions,
            envelopes,
            i,
            end,
            cursor,
        ) {
            Err(e) => Err(e),
            Ok(_) => Ok(end),
        };
    }
    match coalescible_update_run_end(positions, envelopes, i) {
        Some(end) => match update_together(
            tx,
            queues,
            memory,
            progress,
            &pos.queue,
            positions,
            envelopes,
            i,
            end,
            incoming,
        ) {
            Err(e) => Err(e),
            Ok(_) => Ok(end),
        },
        None => match apply_single(tx, queues, memory, progress, pos, &envelopes[i]) {
            Err(e) => Err(e),
            Ok(_) => Ok(i + 1),
        },
    }
}

/// Tells the store of many committed commands in one transaction: a run of pushes as one, a claim
/// and its completion as one, a run of whole updates as one. Whether an update was applied is
/// returned.
pub fn apply_committed_batch_sql<T: RelTx + RelCodec>(
    tx: &mut RelSession<T>,
    queues: &Queues,
    memory: &mut DriverMemory,
    positions: &Vec<CommandPosition>,
    envelopes: &Vec<CommandEnvelope>,
) -> (r: EngineResult<bool>)
    ensures
        held(
            old(tx).trace(),
            final(tx).trace(),
            commits(old(memory)@, queues@, positions@, envelopes@),
            (final(memory)@, outcome(r)),
        ),
{
    let ghost start = tx.trace();
    let ghost m = memory@;
    let ghost prog = commits(m, queues@, positions@, envelopes@);
    proof {
        lemma_start(start, prog);
    }
    if positions.len() != envelopes.len() {
        return Err(
            EngineError::Storage(
                "apply_committed_batch: positions/envelopes length mismatch".to_owned(),
            ),
        );
    }
    if positions.len() == 0 {
        return Ok(false);
    }
    let mut progress = Progress {
        next_seq: OrdMap::new(),
        max_epoch: OrdMap::new(),
        applied_update_fields: false,
    };
    let mut i: usize = 0;
    while i < positions.len()
        invariant
            i <= positions@.len(),
            positions@.len() == envelopes@.len(),
            start == old(tx).trace(),
            m == old(memory)@,
            prog == commits(m, queues@, positions@, envelopes@),
            reached(
                start,
                tx.trace(),
                prog,
                commits_from(memory@, progress@, queues@, positions@, envelopes@, i as int),
            ),
        decreases positions@.len() - i,
    {
        i = match step(
            tx,
            queues,
            memory,
            &mut progress,
            positions,
            envelopes,
            i,
            Ghost(start),
            Ghost(prog),
        ) {
            Err(e) => return Err(e),
            Ok(j) => j,
        };
    }
    match store_cursors(tx, &progress) {
        Err(e) => return Err(e),
        Ok(_) => {},
    }
    Ok(progress.applied_update_fields)
}

/// A command that the store already has is not told again: only its tokens are taken up.
pub proof fn law_replayed_command_is_passed_over(
    m: MemoryV,
    p: ProgressV,
    queues: Map<QueueV, QueueDefinition>,
    ps: Seq<CommandPosition>,
    es: Seq<CommandEnvelope>,
    i: int,
)
    requires
        0 <= i < ps.len(),
        p.next.contains_key(ps[i].queue@),
        (ps[i].sequence as i64) < p.next[ps[i].queue@],
    ensures
        commits_from(m, p, queues, ps, es, i) == commits_from(
            tokens_collected(m, ps[i].queue@, es[i].command),
            p,
            queues,
            ps,
            es,
            i + 1,
        ),
{
    reveal(bind);
    assert(p.next.insert(ps[i].queue@, p.next[ps[i].queue@]) =~= p.next);
}

/// The tokens of commands, from one place on, that the store has absorbed already.
pub open spec fn collected(m: MemoryV, q: QueueV, es: Seq<CommandEnvelope>, i: int) -> MemoryV
    decreases es.len() - i,
{
    if i < 0 || i >= es.len() {
        m
    } else {
        collected(tokens_collected(m, q, es[i].command), q, es, i + 1)
    }
}

proof fn lemma_replayed_rest(
    m: MemoryV,
    p: ProgressV,
    queues: Map<QueueV, QueueDefinition>,
    ps: Seq<CommandPosition>,
    es: Seq<CommandEnvelope>,
    q: QueueV,
    i: int,
)
    requires
        0 <= i <= ps.len(),
        ps.len() == es.len(),
        p.next.contains_key(q),
        forall|k: int|
            0 <= k < ps.len() ==> (#[trigger] ps[k]).queue@ == q && (ps[k].sequence as i64) < p.next[q],
    ensures
        commits_from(m, p, queues, ps, es, i) == commits_from(
            collected(m, q, es, i),
            p,
            queues,
            ps,
            es,
            ps.len() as int,
        ),
    decreases ps.len() - i,
{
    if i < ps.len() {
        assert(ps[i].queue@ == q);
        law_replayed_command_is_passed_over(m, p, queues, ps, es, i);
        lemma_replayed_rest(tokens_collected(m, q, es[i].command), p, queues, ps, es, q, i + 1);
    }
}

/// Taking up tokens changes nothing else in the memory.
proof fn lemma_collected_frame(m: MemoryV, q: QueueV, es: Seq<CommandEnvelope>, i: int)
    ensures
        collected(m, q, es, i) == (MemoryV { ops: collected(m, q, es, i).ops, ..m }),
    decreases es.len() - i,
{
    if 0 <= i < es.len() {
        lemma_tokens_frame(m, q, es[i].command);
        lemma_collected_frame(tokens_collected(m, q, es[i].command), q, es, i + 1);
    }
}

/// The only statement that a batch which the store already has leads to: how far its queue had come is
/// stored again.
pub open spec fn stores_again(m: MemoryV, q: QueueV, n: i64) -> Script<Kept<bool>> {
    hold(
        m,
        stores_cursors(
            ProgressV { next: Map::empty().insert(q, n), epochs: Map::empty(), applied: false },
        ),
        |u: ()| Script::Done((m, Ok::<bool, ErrorV>(false))),
    )
}

/// A batch that the store already has, whole, is passed over: once the store has said how far the queue
/// has come, all that is left to say is that once more. The tokens of the commands are taken up in
/// their order, nothing else in the memory changes, and no update counts as applied.
pub proof fn law_replayed_batch_is_passed_over(
    m: MemoryV,
    queues: Map<QueueV, QueueDefinition>,
    ps: Seq<CommandPosition>,
    es: Seq<CommandEnvelope>,
    q: QueueV,
    n: i64,
    rows: Seq<Seq<CellV>>,
    t: Seq<Exchange>,
)
    requires
        0 < ps.len() == es.len(),
        forall|k: int|
            0 <= k < ps.len() ==> (#[trigger] ps[k]).queue@ == q && (ps[k].sequence as i64) < n,
        rows.len() > 0,
        column::<i64>(rows[0], 0) == Ok::<i64, ErrorV>(n),
    ensures
        reached(
            t,
            t.push(
                Exchange {
                    said: Said::Read(SELECT_NEXT_SEQUENCE@, own(q)),
                    reply: Reply::Rows(Ok(rows)),
                },
            ),
            commits(m, queues, ps, es),
            stores_again(collected(m, q, es, 0), q, n),
        ),
        collected(m, q, es, 0) == (MemoryV { ops: collected(m, q, es, 0).ops, ..m }),
        stores_cursors(
            ProgressV { next: Map::empty().insert(q, n), epochs: Map::empty(), applied: false },
        ) == chain(
            done(
                STORE_CURSOR@,
                own(q).push(CellV::Integer(n)).push(CellV::Integer(0)),
            ),
            |u: ()| Script::Done(Ok::<(), ErrorV>(())),
        ),
{
    let u = t.push(
        Exchange {
            said: Said::Read(SELECT_NEXT_SEQUENCE@, own(q)),
            reply: Reply::Rows(Ok(rows)),
        },
    );
    let whole = commits(m, queues, ps, es);
    let p = ProgressV { next: Map::empty().insert(q, n), epochs: Map::empty(), applied: false };
    let end = collected(m, q, es, 0);
    lemma_collected_frame(m, q, es, 0);
    assert(ps[0].queue@ == q && (ps[0].sequence as i64) < n);
    lemma_start(t, whole);
    lemma_start(t, asks_cursor(no_progress().next, q));
    lemma_start(t, first(SELECT_NEXT_SEQUENCE@, own(q)));
    lemma_read_once(t, SELECT_NEXT_SEQUENCE@, own(q), rows);
    assert(held(t, u, first(SELECT_NEXT_SEQUENCE@, own(q)), Ok(Some(rows[0]))));
    assert(held(t, u, asks_cursor(no_progress().next, q), Ok(n)));
    let begun = ProgressV { next: no_progress().next.insert(q, n), ..no_progress() };
    assert(begun.next =~= p.next);
    assert(begun == p);
    lemma_replayed_rest(tokens_collected(m, q, es[0].command), p, queues, ps, es, q, 1);
    assert(reached(
        t,
        u,
        whole,
        commits_from(tokens_collected(m, q, es[0].command), p, queues, ps, es, 1),
    ));
    assert(commits_from(end, p, queues, ps, es, ps.len() as int) == stores_again(end, q, n));
    lemma_one_cursor(q, n);
}

proof fn lemma_one_cursor(q: QueueV, n: i64)
    ensures
        stores_cursors(
            ProgressV { next: Map::empty().insert(q, n), epochs: Map::empty(), applied: false },
        ) == chain(
            done(
                STORE_CURSOR@,
                own(q).push(CellV::Integer(n)).push(CellV::Integer(0)),
            ),
            |u: ()| Script::Done(Ok::<(), ErrorV>(())),
        ),
{
    let p = ProgressV { next: Map::empty().insert(q, n), epochs: Map::empty(), applied: false };
    let one = seq![q];
    assert(ascending::<QueueKey>(one));
    lemma_listing_of::<QueueKey>(one);
    assert(one.to_set() =~= p.next.dom()) by {
        assert(one[0] == q);
    }
    assert(one.drop_first() =~= Seq::<QueueV>::empty());
    let f = stores_cursor(p);
    reveal_with_fuel(each, 2);
    assert((|u: ()| each(one.drop_first(), f)) =~= (|u: ()| Script::Done(Ok::<(), ErrorV>(()))));
}

/// A queue whose place in the batch is known is not asked for it again.
pub proof fn law_cursor_is_read_once(next: Map<QueueV, i64>, q: QueueV, seq: i64)
    ensures
        asks_cursor(next.insert(q, seq), q) == Script::Done(Ok::<i64, ErrorV>(seq)),
{
}

/// A command that comes before its turn is refused, and the store is told nothing of it.
pub proof fn law_gap_is_refused(
    m: MemoryV,
    p: ProgressV,
    queues: Map<QueueV, QueueDefinition>,
    ps: Seq<CommandPosition>,
    es: Seq<CommandEnvelope>,
    i: int,
)
    requires
        0 <= i < ps.len(),
        p.next.contains_key(ps[i].queue@),
        (ps[i].sequence as i64) > p.next[ps[i].queue@],
    ensures
        commits_from(m, p, queues, ps, es, i) == Script::Done(
            (
                m,
                Err::<bool, ErrorV>(
                    gap(ps[i].queue@, p.next[ps[i].queue@], ps[i].sequence as i64),
                ),
            ),
        ),
{
    reveal(bind);
}

/// A command is told alone only in its turn, and its queue then waits for the next sequence.
pub proof fn law_queue_moves_on_by_one(p: ProgressV, q: QueueV, seq: i64, epoch: i64)
    requires
        seq < i64::MAX,
    ensures
        sequence_after(seq) == Ok::<i64, ErrorV>((seq + 1) as i64),
        progressed(p, q, (seq + 1) as i64, epoch).next[q] == seq + 1,
        progressed(p, q, (seq + 1) as i64, epoch).epochs[q] >= epoch,
        p.epochs.contains_key(q) ==> progressed(p, q, (seq + 1) as i64, epoch).epochs[q]
            >= p.epochs[q],
{
}

} // verus!
