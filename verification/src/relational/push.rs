//! Pushed items, in the store.

use crate::relational::codec::nanos;
use crate::relational::cohorts::Queues;
use crate::relational::exec::{RelCodec, RelSession, RelTx};
use crate::relational::indexes::InsertItemSpec;
use crate::relational::insert::{add_specs, advance_id_high_water_sql, group_item_refs_from_specs, insert_item_specs, inserts, marks_ids, new_refs, specs_of};
use crate::relational::memory::{DriverMemory, Kept, MemoryV, hold};
use crate::relational::query::{is_fifo_claim_scan_item, note_push, plain_item, push_observed};
use crate::relational::script::{Script, group_talk, held, lemma_start};
use crate::relational::summary::{add_group, adds, apply_group_summary_add, with_group};
use crate::text::texts;
use crate::types::{CommandEnvelope, CommandPosition, EngineError, EngineResult, ErrorV, ItemId, QueueCommand, QueueDefinition, QueueKey, QueueV, UtcTimestamp, outcome};
use vstd::prelude::*;
use vstd::string::*;

verus! {

broadcast use group_talk;

/// The items among some insertions.
pub open spec fn inserted_ids(specs: Seq<InsertItemSpec>) -> Seq<ItemId> {
    specs.map_values(|s: InsertItemSpec| s.item.item_id)
}

/// Only plain items are inserted.
pub open spec fn inserts_plain(specs: Seq<InsertItemSpec>) -> bool {
    forall|i: int| 0 <= i < specs.len() ==> plain_item(*(#[trigger] specs[i]).item)
}

/// The groups among some insertions, each once.
pub open spec fn inserted_groups(specs: Seq<InsertItemSpec>) -> Seq<Seq<char>>
    decreases specs.len(),
{
    if specs.len() == 0 {
        Seq::empty()
    } else {
        let before = inserted_groups(specs.drop_last());
        match specs.last().item.group_key {
            Some(g) => with_group(before, g@),
            None => before,
        }
    }
}

fn ids_of_specs(specs: &Vec<InsertItemSpec>) -> (r: Vec<ItemId>)
    ensures
        r@ == inserted_ids(specs@),
{
    let ghost all = inserted_ids(specs@);
    let mut out: Vec<ItemId> = Vec::new();
    let mut i: usize = 0;
    while i < specs.len()
        invariant
            i <= specs@.len(),
            all == inserted_ids(specs@),
            out@ == all.take(i as int),
        decreases specs@.len() - i,
    {
        out.push(specs[i].item.item_id);
        assert(all.take(i as int + 1) =~= all.take(i as int).push(all[i as int]));
        i = i + 1;
    }
    assert(all.take(i as int) =~= all);
    out
}

fn are_specs_plain(specs: &Vec<InsertItemSpec>) -> (r: bool)
    ensures
        r == inserts_plain(specs@),
{
    let mut i: usize = 0;
    while i < specs.len()
        invariant
            i <= specs@.len(),
            forall|j: int| 0 <= j < i ==> plain_item(*(#[trigger] specs@[j]).item),
        decreases specs@.len() - i,
    {
        if !is_fifo_claim_scan_item(specs[i].item) {
            assert(!plain_item(*specs@[i as int].item));
            return false;
        }
        i = i + 1;
    }
    true
}

fn groups_of_specs(specs: &Vec<InsertItemSpec>) -> (r: Vec<String>)
    ensures
        texts(r@) == inserted_groups(specs@),
{
    let mut out: Vec<String> = Vec::new();
    let mut i: usize = 0;
    assert(specs@.take(0) =~= Seq::<InsertItemSpec>::empty());
    assert(texts(out@) =~= Seq::<Seq<char>>::empty());
    while i < specs.len()
        invariant
            i <= specs@.len(),
            texts(out@) == inserted_groups(specs@.take(i as int)),
        decreases specs@.len() - i,
    {
        proof {
            assert(specs@.take(i as int + 1).drop_last() =~= specs@.take(i as int));
            assert(specs@.take(i as int + 1).last() == specs@[i as int]);
        }
        match &specs[i].item.group_key {
            Some(g) => add_group(&mut out, g.as_str()),
            None => {},
        }
        i = i + 1;
    }
    assert(specs@.take(i as int) =~= specs@);
    out
}

/// The memory after a push: the queue is known to hold grouped items once one is pushed.
pub open spec fn push_remembered(m: MemoryV, q: QueueV, specs: Seq<InsertItemSpec>) -> MemoryV {
    let n = push_observed(m, q, inserts_plain(specs));
    if inserted_groups(specs).len() == 0 {
        n
    } else {
        MemoryV { grouped: n.grouped.insert(q), ..n }
    }
}

/// Items are inserted; the mark of minted identifiers rises to them; they join the summaries of
/// their groups.
pub open spec fn pushes(
    m: MemoryV,
    queues: Map<QueueV, QueueDefinition>,
    q: QueueV,
    specs: Seq<InsertItemSpec>,
    now: i64,
) -> Script<Kept<()>> {
    if !queues.contains_key(q) {
        Script::Done((m, Err(ErrorV::NotFound)))
    } else {
        let model = queues[q].priority_model;
        hold(
            m,
            inserts(queues, model, q, specs),
            |base: i64|
                hold(
                    m,
                    marks_ids(q, inserted_ids(specs)),
                    |u: ()|
                        {
                            let n = push_remembered(m, q, specs);
                            if inserted_groups(specs).len() == 0 {
                                Script::Done((n, Ok::<(), ErrorV>(())))
                            } else {
                                hold(
                                    n,
                                    adds(
                                        q,
                                        inserted_groups(specs),
                                        new_refs(specs, model, base),
                                        now,
                                    ),
                                    |v: ()| Script::Done((n, Ok::<(), ErrorV>(()))),
                                )
                            }
                        },
                ),
        )
    }
}

/// Inserts items.
pub fn apply_push_specs_sql<T: RelTx + RelCodec>(
    tx: &mut RelSession<T>,
    queues: &Queues,
    memory: &mut DriverMemory,
    shard: &QueueKey,
    specs: &Vec<InsertItemSpec>,
    now: UtcTimestamp,
) -> (r: EngineResult<()>)
    ensures
        held(
            old(tx).trace(),
            final(tx).trace(),
            pushes(old(memory)@, queues@, shard@, specs@, nanos(now)),
            (final(memory)@, outcome(r)),
        ),
{
    proof {
        lemma_start(tx.trace(), pushes(memory@, queues@, shard@, specs@, nanos(now)));
    }
    let model = match queues.get(shard) {
        None => return Err(EngineError::NotFound),
        Some(d) => d.priority_model,
    };
    let base = match insert_item_specs(tx, queues, &model, shard, specs) {
        Err(e) => return Err(e),
        Ok(b) => b,
    };
    match advance_id_high_water_sql(tx, shard, &ids_of_specs(specs)) {
        Err(e) => return Err(e),
        Ok(_) => {},
    }
    note_push(memory, shard, are_specs_plain(specs));
    let groups = groups_of_specs(specs);
    assert(texts(groups@).len() == groups@.len());
    if groups.len() == 0 {
        return Ok(());
    }
    memory.join_grouped(shard);
    let added = group_item_refs_from_specs(specs, &model, base);
    apply_group_summary_add(tx, shard, &groups, &added, now)
}

/// The insertions of a run of pushes from a sequence on, and when the last of them was made. All
/// commands of a run push.
pub open spec fn run_specs<'a>(
    ps: Seq<CommandPosition>,
    es: Seq<CommandEnvelope>,
    cursor: i64,
) -> Result<(Seq<InsertItemSpec<'a>>, Option<UtcTimestamp>), ErrorV>
    decreases ps.len(),
{
    if ps.len() == 0 {
        Ok((Seq::empty(), None))
    } else {
        match run_specs(ps.drop_last(), es.drop_last(), cursor) {
            Err(e) => Err(e),
            Ok((specs, last)) => if (ps.last().sequence as i64) < cursor {
                Ok((specs, last))
            } else {
                match es.last().command {
                    QueueCommand::Push(items) => Ok(
                        (
                            specs + specs_of(items@, ps.last().sequence, es.last().created_at),
                            Some(es.last().created_at),
                        ),
                    ),
                    _ => Err(
                        ErrorV::Storage("apply_push_run_sql: non-Push envelope in Push run"@),
                    ),
                }
            },
        }
    }
}

proof fn lemma_run_stops(
    ps: Seq<CommandPosition>,
    es: Seq<CommandEnvelope>,
    cursor: i64,
    n: int,
)
    requires
        0 <= n <= ps.len(),
        ps.len() == es.len(),
        run_specs(ps.take(n), es.take(n), cursor) is Err,
    ensures
        run_specs(ps, es, cursor) == run_specs(ps.take(n), es.take(n), cursor),
    decreases ps.len() - n,
{
    if n == ps.len() {
        assert(ps.take(n) =~= ps);
        assert(es.take(n) =~= es);
    } else {
        assert(ps.take(n + 1).drop_last() =~= ps.take(n));
        assert(es.take(n + 1).drop_last() =~= es.take(n));
        lemma_run_stops(ps, es, cursor, n + 1);
    }
}

fn gather_run<'a>(
    positions: &Vec<CommandPosition>,
    envelopes: &'a Vec<CommandEnvelope>,
    from: usize,
    to: usize,
    cursor: i64,
) -> (r: EngineResult<(Vec<InsertItemSpec<'a>>, Option<UtcTimestamp>)>)
    requires
        from <= to <= positions@.len(),
        positions@.len() == envelopes@.len(),
    ensures
        (match r {
            Ok(x) => Ok((x.0@, x.1)),
            Err(e) => Err(e@),
        }) == run_specs(
            positions@.subrange(from as int, to as int),
            envelopes@.subrange(from as int, to as int),
            cursor,
        ),
        r is Ok && r->Ok_0.0@.len() > 0 ==> r->Ok_0.1 is Some,
{
    let ghost ps = positions@.subrange(from as int, to as int);
    let ghost es = envelopes@.subrange(from as int, to as int);
    let mut specs: Vec<InsertItemSpec<'a>> = Vec::new();
    let mut last: Option<UtcTimestamp> = None;
    let mut i: usize = from;
    assert(ps.take(0) =~= Seq::<CommandPosition>::empty());
    while i < to
        invariant
            from <= i <= to <= positions@.len(),
            positions@.len() == envelopes@.len(),
            ps == positions@.subrange(from as int, to as int),
            es == envelopes@.subrange(from as int, to as int),
            run_specs(ps.take(i - from), es.take(i - from), cursor) == Ok::<
                (Seq<InsertItemSpec>, Option<UtcTimestamp>),
                ErrorV,
            >((specs@, last)),
            specs@.len() > 0 ==> last is Some,
        decreases to - i,
    {
        proof {
            let k = i - from;
            assert(ps.take(k + 1).drop_last() =~= ps.take(k));
            assert(es.take(k + 1).drop_last() =~= es.take(k));
            assert(ps.take(k + 1).last() == positions@[i as int]);
            assert(es.take(k + 1).last() == envelopes@[i as int]);
        }
        if (positions[i].sequence as i64) >= cursor {
            match &envelopes[i].command {
                QueueCommand::Push(items) => {
                    add_specs(
                        &mut specs,
                        items,
                        positions[i].sequence,
                        envelopes[i].created_at,
                    );
                    last = Some(envelopes[i].created_at);
                },
                _ => {
                    proof {
                        lemma_run_stops(ps, es, cursor, i - from + 1);
                    }
                    return Err(
                        EngineError::Storage(
                            "apply_push_run_sql: non-Push envelope in Push run".to_owned(),
                        ),
                    );
                },
            }
        }
        i = i + 1;
    }
    assert(ps.take(to - from) =~= ps);
    assert(es.take(to - from) =~= es);
    Ok((specs, last))
}

/// A run of pushes is inserted at once.
pub open spec fn pushes_run(
    m: MemoryV,
    queues: Map<QueueV, QueueDefinition>,
    q: QueueV,
    ps: Seq<CommandPosition>,
    es: Seq<CommandEnvelope>,
    cursor: i64,
) -> Script<Kept<()>> {
    if !queues.contains_key(q) {
        Script::Done((m, Err(ErrorV::NotFound)))
    } else {
        match run_specs(ps, es, cursor) {
            Err(e) => Script::Done((m, Err(e))),
            Ok((specs, last)) => if specs.len() == 0 {
                Script::Done((m, Ok(())))
            } else {
                pushes(m, queues, q, specs, nanos(last->Some_0))
            },
        }
    }
}

/// Inserts the items of a run of pushes, those at and after the cursor.
pub fn apply_push_run_sql<T: RelTx + RelCodec>(
    tx: &mut RelSession<T>,
    queues: &Queues,
    memory: &mut DriverMemory,
    shard: &QueueKey,
    positions: &Vec<CommandPosition>,
    envelopes: &Vec<CommandEnvelope>,
    from: usize,
    to: usize,
    cursor: i64,
) -> (r: EngineResult<()>)
    requires
        from <= to <= positions@.len(),
        positions@.len() == envelopes@.len(),
    ensures
        held(
            old(tx).trace(),
            final(tx).trace(),
            pushes_run(
                old(memory)@,
                queues@,
                shard@,
                positions@.subrange(from as int, to as int),
                envelopes@.subrange(from as int, to as int),
                cursor,
            ),
            (final(memory)@, outcome(r)),
        ),
{
    proof {
        lemma_start(
            tx.trace(),
            pushes_run(
                memory@,
                queues@,
                shard@,
                positions@.subrange(from as int, to as int),
                envelopes@.subrange(from as int, to as int),
                cursor,
            ),
        );
    }
    if !queues.contains_key(shard) {
        return Err(EngineError::NotFound);
    }
    let (specs, last) = match gather_run(positions, envelopes, from, to, cursor) {
        Err(e) => return Err(e),
        Ok(x) => x,
    };
    if specs.len() == 0 {
        return Ok(());
    }
    match last {
        None => Ok(()),
        Some(now) => apply_push_specs_sql(tx, queues, memory, shard, &specs, now),
    }
}

} // verus!
