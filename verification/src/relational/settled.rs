//! What outcomes surely write into the rows of the store.

use crate::effects::past_the_series;
use crate::order::{lemma_listing_exists, listing_of};
use crate::relational::codec::{id_texts, nanos, opt_nanos};
use crate::relational::columns::{lemma_finalize_range, lemma_finalize_set, lemma_reschedule};
use crate::relational::command::commands;
use crate::relational::finalize::{BucketsV, DELETE_LEASE_BEARERS, FINALIZE_RANGE, FINALIZE_SET, RESCHEDULE, RetryRow, SELECT_RETRIES, Settling, backs_off, finalizes, key_set, recurrence_of, rearms, rejoins, reschedules, retried, settles, settles_all, settles_range, settling_cells, sorted_out, state_after, under};
use crate::relational::lists::{listed, on_items, reads_in};
use crate::relational::memory::{Kept, MemoryV, hold, plain};
use crate::relational::query::{RELATIONAL_BATCH, own};
use crate::relational::scan::asks_range;
use crate::relational::script::{Reply, Said, Script, chain, each, run};
use crate::relational::stored::{binds_all, by_stretch, lemma_items_told, lemma_named_in, on_row, reads_at};
use crate::relational::told::{kept_well, lemma_chain_first, lemma_chain_then, lemma_each_says, lemma_hold_first, lemma_hold_then, lemma_surely_weaker, surely, well};
use crate::relational::tokens::outcome_ids;
use crate::relational::value::{CellV, int_cell, text_cells};
use crate::text::numeral;
use crate::types::{ErrorV, FinalizeKind, FinalizeOutcome, ItemId, ItemState, QueueCommand, QueueDefinition, QueueV, RecurrencePolicy, UtcTimestamp};
use vstd::prelude::*;
use vstd::string::*;

verus! {

/// The columns of a row that has come to an end.
pub open spec fn end_columns(state: Seq<char>, now: UtcTimestamp, epoch: u64, seq: u64) -> Seq<
    (Seq<char>, CellV),
> {
    seq![
        ("lifecycle_state"@, CellV::Text(state)),
        ("terminal_at"@, CellV::Integer(nanos(now))),
        ("terminal_command_epoch"@, CellV::Integer(epoch as i64)),
        ("updated_at"@, CellV::Integer(nanos(now))),
        ("last_command_sequence"@, CellV::Integer(seq as i64)),
    ]
}

/// The columns of a row that goes back into the queue.
pub open spec fn back_columns(now: UtcTimestamp, seq: u64) -> Seq<(Seq<char>, CellV)> {
    seq![
        ("lifecycle_state"@, CellV::Text("Pending"@)),
        ("terminal_at"@, CellV::Null),
        ("terminal_command_epoch"@, CellV::Null),
        ("updated_at"@, CellV::Integer(nanos(now))),
        ("last_command_sequence"@, CellV::Integer(seq as i64)),
    ]
}

/// What an outcome writes into the row of its item, unless the item is retried: a completed item is
/// complete, a failed one failed, a released one pending, and a rearmed one pending too, unless its next
/// occurrence would lie past the end of the series.
pub open spec fn outcome_columns(
    queues: Map<QueueV, QueueDefinition>,
    q: QueueV,
    o: FinalizeOutcome,
    now: UtcTimestamp,
    epoch: u64,
    seq: u64,
) -> Seq<(Seq<char>, CellV)> {
    match o.kind {
        FinalizeKind::Complete => end_columns("Complete"@, now, epoch, seq),
        FinalizeKind::Fail => end_columns("Failed"@, now, epoch, seq),
        FinalizeKind::Rearm if queues.contains_key(q) && past_the_series(
            queues[q].recurrence,
            o.not_before,
        ) => end_columns("Complete"@, now, epoch, seq),
        _ => back_columns(now, seq),
    }
}

/// When a row may next run, and since when it has been eligible.
pub open spec fn wait_columns(not_before: CellV, since: i64) -> Seq<(Seq<char>, CellV)> {
    seq![("not_before"@, not_before), ("eligible_since"@, CellV::Integer(since))]
}

/// The outcome stands where its state puts it.
spec fn placed(b: BucketsV, o: FinalizeOutcome, s: ItemState) -> bool {
    let t = numeral(o.item_id as nat);
    match s {
        ItemState::Complete => b.complete.contains(t),
        ItemState::Failed => b.failed.contains(t),
        _ => if o.kind is Rearm {
            b.rearmed.contains(t) && b.schedule.contains((opt_nanos(o.not_before), t))
        } else {
            b.pending.contains(t) && (o.kind is Retry && o.not_before is Some ==> b.backoff.contains(
                (nanos(o.not_before->Some_0), t),
            ))
        },
    }
}

proof fn lemma_pushed<A>(s: Seq<A>, a: A, x: A)
    requires
        s.contains(x) || x == a,
    ensures
        s.push(a).contains(x),
{
    if s.contains(x) {
        let i = choose|i: int| 0 <= i < s.len() && s[i] == x;
        assert(s.push(a)[i] == x);
    } else {
        assert(s.push(a)[s.len() as int] == x);
    }
}

proof fn lemma_placed(
    m: MemoryV,
    rec: Option<RecurrencePolicy>,
    q: QueueV,
    o: Seq<FinalizeOutcome>,
    retries: Seq<(Seq<char>, i64, i64)>,
    k: int,
)
    requires
        0 <= k < o.len(),
        sorted_out(m, rec, q, o, retries).1 is Ok,
    ensures
        state_after(rec, o[k], retries) is Ok,
        placed(
            sorted_out(m, rec, q, o, retries).1->Ok_0,
            o[k],
            state_after(rec, o[k], retries)->Ok_0,
        ),
    decreases o.len(),
{
    let b0 = sorted_out(m, rec, q, o.drop_last(), retries).1->Ok_0;
    let s = state_after(rec, o.last(), retries)->Ok_0;
    let t = numeral(o.last().item_id as nat);
    assert forall|l: Seq<Seq<char>>, x: Seq<char>| l.contains(x) || x == t implies #[trigger] l.push(
        t,
    ).contains(x) by {
        lemma_pushed(l, t, x);
    }
    assert forall|l: Seq<(i64, Seq<char>)>, y: (i64, Seq<char>), x: (i64, Seq<char>)|
        l.contains(x) || x == y implies #[trigger] l.push(y).contains(x) by {
        lemma_pushed(l, y, x);
    }
    assert forall|l: Seq<(Option<i64>, Seq<char>)>, y: (Option<i64>, Seq<char>), x: (
        Option<i64>,
        Seq<char>,
    )|
        l.contains(x) || x == y implies #[trigger] l.push(y).contains(x) by {
        lemma_pushed(l, y, x);
    }
    if k < o.len() - 1 {
        lemma_placed(m, rec, q, o.drop_last(), retries, k);
        assert(o.drop_last()[k] == o[k]);
        let s1 = state_after(rec, o[k], retries)->Ok_0;
        assert(placed(b0, o[k], s1));
    }
}

/// A statement over a list of items surely writes the row of each of them.
proof fn lemma_texts_told(
    prefix: Seq<char>,
    lead: Seq<CellV>,
    q: QueueV,
    ids: Seq<Seq<char>>,
    id: ItemId,
    columns: Seq<(Seq<char>, CellV)>,
)
    requires
        ids.contains(numeral(id as nat)),
        forall|n: nat, ps: Seq<CellV>|
            ps.len() >= lead.len() + 2 && ps.take(lead.len() as int + 2) == lead.push(
                CellV::Text(q.tenant_id),
            ).push(CellV::Text(q.queue_id)) ==> #[trigger] binds_all(
                q,
                listed(prefix, n, Seq::empty()),
                ps,
                columns,
            ),
    ensures
        surely(on_items(prefix, lead, q, ids), well(), on_row(q, id, columns)),
{
    let p = on_row(q, id, columns);
    let t = numeral(id as nat);
    let all = lead.push(CellV::Text(q.tenant_id)).push(CellV::Text(q.queue_id));
    assert forall|chunk: Seq<Seq<char>>| #[trigger] chunk.contains(t) implies p(
        Said::Run(listed(prefix, chunk.len(), Seq::empty()), all + text_cells(chunk)),
    ) by {
        let ps = all + text_cells(chunk);
        lemma_named_in(all, chunk, t);
        assert(ps.take(lead.len() as int + 2) =~= all);
        assert(binds_all(q, listed(prefix, chunk.len(), Seq::empty()), ps, columns));
    }
    lemma_items_told(prefix, lead, q, ids, t, p);
}

/// What a settling writes.
spec fn settling_columns(s: Settling, now: i64, seq: u64) -> Seq<(Seq<char>, CellV)> {
    let cells = settling_cells(s, now, seq);
    seq![
        ("lifecycle_state"@, cells[0]),
        ("terminal_at"@, cells[2]),
        ("terminal_command_epoch"@, cells[3]),
        ("updated_at"@, cells[4]),
        ("last_command_sequence"@, cells[5]),
    ]
}

proof fn lemma_settles(
    plain: bool,
    q: QueueV,
    s: Settling,
    ids: Seq<Seq<char>>,
    now: i64,
    seq: u64,
    id: ItemId,
)
    requires
        ids.contains(numeral(id as nat)),
    ensures
        surely(
            settles(plain, q, s, ids, now, seq),
            well(),
            on_row(q, id, settling_columns(s, now, seq)),
        ),
{
    let columns = settling_columns(s, now, seq);
    let p = on_row(q, id, columns);
    let lead = settling_cells(s, now, seq);
    let all = lead.push(CellV::Text(q.tenant_id)).push(CellV::Text(q.queue_id));
    assert(lead.len() == 6);
    assert forall|n: nat, ps: Seq<CellV>|
        ps.len() >= lead.len() + 2 && ps.take(lead.len() as int + 2)
            == all implies #[trigger] binds_all(
        q,
        listed(FINALIZE_SET@, n, Seq::empty()),
        ps,
        columns,
    ) by {
        lemma_finalize_set(n, ps);
        let front = ps.take(8);
        assert(ps[0] == front[0] && ps[2] == front[2] && ps[3] == front[3] && ps[4] == front[4]
            && ps[5] == front[5] && ps[6] == front[6] && ps[7] == front[7]);
        assert(all[0] == lead[0] && all[2] == lead[2] && all[3] == lead[3] && all[4] == lead[4]
            && all[5] == lead[5]);
    }
    lemma_texts_told(FINALIZE_SET@, lead, q, ids, id, columns);
    if plain && s.state.terminal() {
        let k = |range: Option<(i64, i64)>|
            match range {
                Some(span) => settles_range(q, s, ids.len(), now, seq, span),
                None => on_items(FINALIZE_SET@, settling_cells(s, now, seq), q, ids),
            };
        assert forall|range: Option<(i64, i64)>| surely(#[trigger] k(range), well(), p) by {
            match range {
                Some(span) => {
                    lemma_settles_range(q, s, ids.len(), now, seq, span, id);
                },
                None => {},
            }
        }
        lemma_chain_then(asks_range(q, ids, Some("Leased"@)), k, p);
    }
}

proof fn lemma_settles_range(
    q: QueueV,
    s: Settling,
    n: nat,
    now: i64,
    seq: u64,
    span: (i64, i64),
    id: ItemId,
)
    ensures
        surely(
            settles_range(q, s, n, now, seq, span),
            well(),
            on_row(q, id, settling_columns(s, now, seq)),
        ),
{
    let columns = settling_columns(s, now, seq);
    let p = on_row(q, id, columns);
    let lead = settling_cells(s, now, seq);
    let ps = lead.push(CellV::Text(q.tenant_id)).push(CellV::Text(q.queue_id)).push(
        CellV::Integer(span.0),
    ).push(CellV::Integer(span.1));
    lemma_finalize_range(ps);
    assert(by_stretch(FINALIZE_RANGE@)) by {
        reveal_strlit(
            "UPDATE fireweed_items SET lifecycle_state=?1, lease_token_hash=NULL, lease_expires_at=NULL, worker_id=NULL, fenced=0, item_version=item_version+1, retry_count=CASE WHEN ?2 THEN 0 ELSE retry_count END, terminal_at=?3, terminal_command_epoch=?4, updated_at=?5, last_command_sequence=?6 WHERE tenant_id=?7 AND queue_id=?8 AND rowid BETWEEN ?9 AND ?10",
        );
        reveal_strlit("rowid BETWEEN ");
        assert(FINALIZE_RANGE@.subrange(323, 337) =~= "rowid BETWEEN "@);
        assert(reads_at(FINALIZE_RANGE@, 323, "rowid BETWEEN "@));
    }
    assert(binds_all(q, FINALIZE_RANGE@, ps, columns));
    reveal(run);
    let f = |r: Reply| Script::Done(r->Count_0);
    let g = run(FINALIZE_RANGE@, ps);
    assert(g == Script::Ask(Said::Run(FINALIZE_RANGE@, ps), f));
    assert(p(Said::Run(FINALIZE_RANGE@, ps)));
    assert(surely(g, well(), p));
    let whole = settles_range(q, s, n, now, seq, span);
    let k = choose|k: spec_fn(usize) -> Script<Result<(), ErrorV>>| whole == #[trigger] chain(g, k);
    lemma_chain_first(g, k, p);
}

/// A settling of those among which the item stands.
proof fn lemma_settles_all(
    plain: bool,
    q: QueueV,
    b: BucketsV,
    now: UtcTimestamp,
    epoch: u64,
    seq: u64,
    id: ItemId,
    columns: Seq<(Seq<char>, CellV)>,
)
    requires
        ({
            let t = numeral(id as nat);
            ||| b.complete.contains(t) && columns == end_columns("Complete"@, now, epoch, seq)
            ||| b.failed.contains(t) && columns == end_columns("Failed"@, now, epoch, seq)
            ||| b.pending.contains(t) && columns == back_columns(now, seq)
            ||| b.rearmed.contains(t) && columns == back_columns(now, seq)
        }),
    ensures
        surely(
            settles_all(plain, q, b, nanos(now), epoch, seq),
            well(),
            on_row(q, id, columns),
        ),
{
    let p = on_row(q, id, columns);
    let t = numeral(id as nat);
    let at = nanos(now);
    let over = |s: ItemState|
        Settling {
            state: s,
            reset: false,
            terminal_at: Some(at),
            terminal_epoch: Some(epoch as i64),
        };
    let back = |reset: bool|
        Settling { state: ItemState::Pending, reset, terminal_at: None, terminal_epoch: None };
    let k3 = |w: ()| settles(plain, q, back(true), b.rearmed, at, seq);
    let g3 = settles(plain, q, back(false), b.pending, at, seq);
    let k2 = |v: ()| chain(g3, k3);
    let g2 = settles(plain, q, over(ItemState::Failed), b.failed, at, seq);
    let k1 = |u: ()| chain(g2, k2);
    let g1 = settles(plain, q, over(ItemState::Complete), b.complete, at, seq);
    assert(settles_all(plain, q, b, at, epoch, seq) == chain(g1, k1)) by {
        assert(k3 =~= (|w: ()| settles(plain, q, back(true), b.rearmed, at, seq)));
    }
    if b.complete.contains(t) && columns == end_columns("Complete"@, now, epoch, seq) {
        lemma_settles(plain, q, over(ItemState::Complete), b.complete, at, seq, id);
        assert(settling_columns(over(ItemState::Complete), at, seq) =~= columns);
        lemma_chain_first(g1, k1, p);
    } else {
        if b.failed.contains(t) && columns == end_columns("Failed"@, now, epoch, seq) {
            lemma_settles(plain, q, over(ItemState::Failed), b.failed, at, seq, id);
            assert(settling_columns(over(ItemState::Failed), at, seq) =~= columns);
            lemma_chain_first(g2, k2, p);
        } else {
            if b.pending.contains(t) {
                lemma_settles(plain, q, back(false), b.pending, at, seq, id);
                assert(settling_columns(back(false), at, seq) =~= columns);
                lemma_chain_first(g3, k3, p);
            } else {
                lemma_settles(plain, q, back(true), b.rearmed, at, seq, id);
                assert(settling_columns(back(true), at, seq) =~= columns);
                assert forall|w: ()| surely(#[trigger] k3(w), well(), p) by {}
                lemma_chain_then(g3, k3, p);
            }
            assert forall|v: ()| surely(#[trigger] k2(v), well(), p) by {}
            lemma_chain_then(g2, k2, p);
        }
        assert forall|u: ()| surely(#[trigger] k1(u), well(), p) by {}
        lemma_chain_then(g1, k1, p);
    }
}

/// What follows once the outcomes are sorted out.
spec fn rest_of(
    m: MemoryV,
    queues: Map<QueueV, QueueDefinition>,
    q: QueueV,
    epoch: u64,
    seq: u64,
    now: UtcTimestamp,
    o: Seq<FinalizeOutcome>,
    retries: Seq<(Seq<char>, i64, i64)>,
) -> Script<Kept<()>> {
    let (n, r) = sorted_out(m, recurrence_of(queues, q), q, o, retries);
    match r {
        Err(e) => Script::Done((n, Err::<(), ErrorV>(e))),
        Ok(b) => hold(
            n,
            settles_all(plain(n, q), q, b, nanos(now), epoch, seq),
            |v: ()|
                hold(
                    n,
                    reschedules(q, b, nanos(now)),
                    |w: ()|
                        rejoins(n, recurrence_of(queues, q), q, o, retries, nanos(now)),
                ),
        ),
    }
}

proof fn lemma_finalizes(
    m: MemoryV,
    queues: Map<QueueV, QueueDefinition>,
    q: QueueV,
    epoch: u64,
    seq: u64,
    now: UtcTimestamp,
    o: Vec<FinalizeOutcome>,
    p: spec_fn(Said) -> bool,
)
    requires
        forall|retries: Seq<(Seq<char>, i64, i64)>|
            surely(#[trigger] rest_of(m, queues, q, epoch, seq, now, o@, retries), kept_well(), p),
    ensures
        surely(
            commands(m, queues, q, epoch, seq, now, QueueCommand::Finalize(o)),
            kept_well(),
            p,
        ),
{
    let after = |retries: Seq<(Seq<char>, i64, i64)>|
        rest_of(m, queues, q, epoch, seq, now, o@, retries);
    let asked = reads_in::<RetryRow>(
        SELECT_RETRIES@,
        Seq::empty(),
        own(q),
        retried(o@),
        RELATIONAL_BATCH as nat,
    );
    let k = |u: ()| hold(m, asked, after);
    let g = on_items(DELETE_LEASE_BEARERS@, Seq::empty(), q, id_texts(outcome_ids(o@)));
    let h = |retries: Seq<(Seq<char>, i64, i64)>|
        {
            let (n, r) = sorted_out(m, recurrence_of(queues, q), q, o@, retries);
            match r {
                Err(e) => Script::Done((n, Err::<(), ErrorV>(e))),
                Ok(b) => hold(
                    n,
                    settles_all(plain(n, q), q, b, nanos(now), epoch, seq),
                    |v: ()|
                        hold(
                            n,
                            reschedules(q, b, nanos(now)),
                            |w: ()|
                                rejoins(n, recurrence_of(queues, q), q, o@, retries, nanos(now)),
                        ),
                ),
            }
        };
    assert forall|retries: Seq<(Seq<char>, i64, i64)>| #[trigger] h(retries) == after(retries) by {}
    assert(h =~= after);
    assert(finalizes(m, queues, q, epoch, seq, now, o@) == hold(m, g, |u: ()| hold(m, asked, h)));
    assert((|u: ()| hold(m, asked, h)) =~= k);
    assert forall|u: ()| surely(#[trigger] k(u), kept_well(), p) by {
        assert forall|retries: Seq<(Seq<char>, i64, i64)>| surely(
            #[trigger] after(retries),
            kept_well(),
            p,
        ) by {
            assert(surely(rest_of(m, queues, q, epoch, seq, now, o@, retries), kept_well(), p));
        }
        lemma_hold_then(m, asked, after, p);
    }
    lemma_hold_then(m, g, k, p);
}

/// Whatever the store replies, outcomes that go well have told it to settle the row of each item as its
/// outcome says. What becomes of a retried item depends on how often it was tried.
pub proof fn law_stored_outcomes_settle_rows(
    m: MemoryV,
    queues: Map<QueueV, QueueDefinition>,
    q: QueueV,
    epoch: u64,
    seq: u64,
    now: UtcTimestamp,
    o: Vec<FinalizeOutcome>,
    k: int,
)
    requires
        0 <= k < o@.len(),
        !(o@[k].kind is Retry),
    ensures
        surely(
            commands(m, queues, q, epoch, seq, now, QueueCommand::Finalize(o)),
            kept_well(),
            on_row(q, o@[k].item_id, outcome_columns(queues, q, o@[k], now, epoch, seq)),
        ),
{
    let columns = outcome_columns(queues, q, o@[k], now, epoch, seq);
    let p = on_row(q, o@[k].item_id, columns);
    let rec = recurrence_of(queues, q);
    assert forall|retries: Seq<(Seq<char>, i64, i64)>| surely(
        #[trigger] rest_of(m, queues, q, epoch, seq, now, o@, retries),
        kept_well(),
        p,
    ) by {
        let (n, r) = sorted_out(m, rec, q, o@, retries);
        if r is Ok {
            let b = r->Ok_0;
            lemma_placed(m, rec, q, o@, retries, k);
            lemma_settles_all(plain(n, q), q, b, now, epoch, seq, o@[k].item_id, columns);
            lemma_hold_first(
                n,
                settles_all(plain(n, q), q, b, nanos(now), epoch, seq),
                |v: ()|
                    hold(
                        n,
                        reschedules(q, b, nanos(now)),
                        |w: ()| rejoins(n, rec, q, o@, retries, nanos(now)),
                    ),
                p,
            );
        }
    }
    lemma_finalizes(m, queues, q, epoch, seq, now, o, p);
}

proof fn lemma_under<K>(list: Seq<(K, Seq<char>)>, k: K, t: Seq<char>)
    requires
        list.contains((k, t)),
    ensures
        under(list, k).contains(t),
        key_set(list).contains(k),
        key_set(list).finite(),
    decreases list.len(),
{
    let i = choose|i: int| 0 <= i < list.len() && list[i] == (k, t);
    assert(list[i].0 == k);
    lemma_keys_finite(list);
    if i == list.len() - 1 {
        lemma_pushed(under(list.drop_last(), k), t, t);
    } else {
        assert(list.drop_last()[i] == (k, t));
        lemma_under(list.drop_last(), k, t);
        if list.last().0 == k {
            lemma_pushed(under(list.drop_last(), k), list.last().1, t);
        }
    }
}

proof fn lemma_keys_finite<K>(list: Seq<(K, Seq<char>)>)
    ensures
        key_set(list).finite(),
    decreases list.len(),
{
    if list.len() == 0 {
        assert(key_set(list) =~= Set::<K>::empty());
    } else {
        let rest = list.drop_last();
        lemma_keys_finite(rest);
        assert(key_set(list) =~= key_set(rest).insert(list.last().0)) by {
            assert forall|k: K| key_set(list).contains(k) implies key_set(rest).insert(
                list.last().0,
            ).contains(k) by {
                let i = choose|i: int| 0 <= i < list.len() && (#[trigger] list[i]).0 == k;
                if i < rest.len() {
                    assert(rest[i].0 == k);
                }
            }
            assert forall|k: K| key_set(rest).insert(list.last().0).contains(k) implies key_set(
                list,
            ).contains(k) by {
                if key_set(rest).contains(k) {
                    let i = choose|i: int| 0 <= i < rest.len() && (#[trigger] rest[i]).0 == k;
                    assert(list[i].0 == k);
                } else {
                    assert(list[list.len() - 1].0 == k);
                }
            }
        }
    }
}

proof fn lemma_reschedule_told(
    q: QueueV,
    nb: CellV,
    since: i64,
    ids: Seq<Seq<char>>,
    id: ItemId,
)
    requires
        ids.contains(numeral(id as nat)),
    ensures
        surely(
            on_items(
                RESCHEDULE@,
                Seq::<CellV>::empty().push(nb).push(CellV::Integer(since)),
                q,
                ids,
            ),
            well(),
            on_row(q, id, wait_columns(nb, since)),
        ),
{
    let columns = wait_columns(nb, since);
    let lead = Seq::<CellV>::empty().push(nb).push(CellV::Integer(since));
    let all = lead.push(CellV::Text(q.tenant_id)).push(CellV::Text(q.queue_id));
    assert forall|n: nat, ps: Seq<CellV>|
        ps.len() >= lead.len() + 2 && ps.take(lead.len() as int + 2)
            == all implies #[trigger] binds_all(
        q,
        listed(RESCHEDULE@, n, Seq::empty()),
        ps,
        columns,
    ) by {
        lemma_reschedule(n, ps);
        assert(ps[0] == all[0] && ps[1] == all[1] && ps[2] == all[2] && ps[3] == all[3]);
    }
    lemma_texts_told(RESCHEDULE@, lead, q, ids, id, columns);
}

/// The later of a moment and the present, as the store holds them.
pub open spec fn since_of(nb: Option<UtcTimestamp>, now: UtcTimestamp) -> i64 {
    if nb is Some && nanos(nb->Some_0) >= nanos(now) {
        nanos(nb->Some_0)
    } else {
        nanos(now)
    }
}

proof fn lemma_reschedules(
    q: QueueV,
    b: BucketsV,
    now: UtcTimestamp,
    o: FinalizeOutcome,
    nb: CellV,
    since: i64,
)
    requires
        ({
            let t = numeral(o.item_id as nat);
            ||| {
                &&& b.schedule.contains((opt_nanos(o.not_before), t))
                &&& nb == int_cell(opt_nanos(o.not_before))
                &&& since == since_of(o.not_before, now)
            }
            ||| {
                &&& o.not_before is Some
                &&& b.backoff.contains((nanos(o.not_before->Some_0), t))
                &&& nb == CellV::Integer(nanos(o.not_before->Some_0))
                &&& since == nanos(o.not_before->Some_0)
            }
        }),
    ensures
        surely(
            reschedules(q, b, nanos(now)),
            well(),
            on_row(q, o.item_id, wait_columns(nb, since)),
        ),
{
    let p = on_row(q, o.item_id, wait_columns(nb, since));
    let t = numeral(o.item_id as nat);
    let at = nanos(now);
    let g = each(listing_of::<i64>(key_set(b.backoff)), backs_off(q, b.backoff));
    let h = each(listing_of::<Option<i64>>(key_set(b.schedule)), rearms(q, b.schedule, at));
    let k = |u: ()| h;
    assert(k =~= (|u: ()|
        each(listing_of::<Option<i64>>(key_set(b.schedule)), rearms(q, b.schedule, at))));
    assert(reschedules(q, b, at) == chain(g, k));
    if b.schedule.contains((opt_nanos(o.not_before), t)) && nb == int_cell(opt_nanos(o.not_before))
        && since == since_of(o.not_before, now) {
        let key = opt_nanos(o.not_before);
        lemma_under(b.schedule, key, t);
        lemma_listing_exists::<Option<i64>>(key_set(b.schedule));
        let keys = listing_of::<Option<i64>>(key_set(b.schedule));
        assert(keys.to_set().contains(key));
        let j = choose|j: int| 0 <= j < keys.len() && keys[j] == key;
        lemma_reschedule_told(q, nb, since, under(b.schedule, key), o.item_id);
        assert(rearms(q, b.schedule, at)(keys[j]) == on_items(
            RESCHEDULE@,
            Seq::<CellV>::empty().push(nb).push(CellV::Integer(since)),
            q,
            under(b.schedule, key),
        ));
        lemma_each_says(keys, rearms(q, b.schedule, at), j, p);
        assert forall|u: ()| surely(#[trigger] k(u), well(), p) by {}
        lemma_chain_then(g, k, p);
    } else {
        let key = nanos(o.not_before->Some_0);
        lemma_under(b.backoff, key, t);
        lemma_listing_exists::<i64>(key_set(b.backoff));
        let keys = listing_of::<i64>(key_set(b.backoff));
        assert(keys.to_set().contains(key));
        let j = choose|j: int| 0 <= j < keys.len() && keys[j] == key;
        lemma_reschedule_told(q, nb, since, under(b.backoff, key), o.item_id);
        assert(backs_off(q, b.backoff)(keys[j]) == on_items(
            RESCHEDULE@,
            Seq::<CellV>::empty().push(nb).push(CellV::Integer(since)),
            q,
            under(b.backoff, key),
        ));
        lemma_each_says(keys, backs_off(q, b.backoff), j, p);
        lemma_chain_first(g, k, p);
    }
}

/// Whatever the store replies, rearmed items that go well wait there until the time of the command: not
/// before is that time, and they count as eligible from it, or from now if that is later.
pub proof fn law_stored_rearms_wait(
    m: MemoryV,
    queues: Map<QueueV, QueueDefinition>,
    q: QueueV,
    epoch: u64,
    seq: u64,
    now: UtcTimestamp,
    o: Vec<FinalizeOutcome>,
    k: int,
)
    requires
        0 <= k < o@.len(),
        o@[k].kind is Rearm,
        !(queues.contains_key(q) && past_the_series(queues[q].recurrence, o@[k].not_before)),
    ensures
        surely(
            commands(m, queues, q, epoch, seq, now, QueueCommand::Finalize(o)),
            kept_well(),
            on_row(
                q,
                o@[k].item_id,
                wait_columns(
                    match o@[k].not_before {
                        Some(t) => CellV::Integer(nanos(t)),
                        None => CellV::Null,
                    },
                    since_of(o@[k].not_before, now),
                ),
            ),
        ),
{
    let nb = int_cell(opt_nanos(o@[k].not_before));
    let since = since_of(o@[k].not_before, now);
    let p = on_row(q, o@[k].item_id, wait_columns(nb, since));
    let rec = recurrence_of(queues, q);
    assert forall|retries: Seq<(Seq<char>, i64, i64)>| surely(
        #[trigger] rest_of(m, queues, q, epoch, seq, now, o@, retries),
        kept_well(),
        p,
    ) by {
        let (n, r) = sorted_out(m, rec, q, o@, retries);
        if r is Ok {
            let b = r->Ok_0;
            lemma_placed(m, rec, q, o@, retries, k);
            lemma_reschedules(q, b, now, o@[k], nb, since);
            lemma_rest_then(m, queues, q, epoch, seq, now, o@, retries, p);
        }
    }
    lemma_finalizes(m, queues, q, epoch, seq, now, o, p);
}

proof fn lemma_rest_then(
    m: MemoryV,
    queues: Map<QueueV, QueueDefinition>,
    q: QueueV,
    epoch: u64,
    seq: u64,
    now: UtcTimestamp,
    o: Seq<FinalizeOutcome>,
    retries: Seq<(Seq<char>, i64, i64)>,
    p: spec_fn(Said) -> bool,
)
    requires
        ({
            let r = sorted_out(m, recurrence_of(queues, q), q, o, retries).1;
            r is Ok ==> surely(reschedules(q, r->Ok_0, nanos(now)), well(), p)
        }),
    ensures
        surely(rest_of(m, queues, q, epoch, seq, now, o, retries), kept_well(), p),
{
    let rec = recurrence_of(queues, q);
    let (n, r) = sorted_out(m, rec, q, o, retries);
    if r is Ok {
        let b = r->Ok_0;
        let last = |w: ()| rejoins(n, rec, q, o, retries, nanos(now));
        let then = |v: ()| hold(n, reschedules(q, b, nanos(now)), last);
        assert forall|v: ()| surely(#[trigger] then(v), kept_well(), p) by {
            lemma_hold_first(n, reschedules(q, b, nanos(now)), last, p);
        }
        let g = settles_all(plain(n, q), q, b, nanos(now), epoch, seq);
        lemma_hold_then(n, g, then, p);
        assert(rest_of(m, queues, q, epoch, seq, now, o, retries) == hold(n, g, then)) by {
            assert(last =~= (|w: ()|
                rejoins(n, recurrence_of(queues, q), q, o, retries, nanos(now))));
        }
    }
}

/// One of two things.
pub open spec fn either(p: spec_fn(Said) -> bool, w: spec_fn(Said) -> bool) -> spec_fn(
    Said,
) -> bool {
    |s: Said| p(s) || w(s)
}

/// Whatever the store replies, a retried item that goes well has failed there or is pending again, and
/// then, where the command gives a time, it waits until that time.
pub proof fn law_stored_retries_fail_or_wait(
    m: MemoryV,
    queues: Map<QueueV, QueueDefinition>,
    q: QueueV,
    epoch: u64,
    seq: u64,
    now: UtcTimestamp,
    o: Vec<FinalizeOutcome>,
    k: int,
)
    requires
        0 <= k < o@.len(),
        o@[k].kind is Retry,
    ensures
        surely(
            commands(m, queues, q, epoch, seq, now, QueueCommand::Finalize(o)),
            kept_well(),
            either(
                on_row(q, o@[k].item_id, end_columns("Failed"@, now, epoch, seq)),
                on_row(q, o@[k].item_id, back_columns(now, seq)),
            ),
        ),
        o@[k].not_before is Some ==> surely(
            commands(m, queues, q, epoch, seq, now, QueueCommand::Finalize(o)),
            kept_well(),
            either(
                on_row(q, o@[k].item_id, end_columns("Failed"@, now, epoch, seq)),
                on_row(
                    q,
                    o@[k].item_id,
                    wait_columns(
                        CellV::Integer(nanos(o@[k].not_before->Some_0)),
                        nanos(o@[k].not_before->Some_0),
                    ),
                ),
            ),
        ),
{
    let id = o@[k].item_id;
    let failed = on_row(q, id, end_columns("Failed"@, now, epoch, seq));
    let back = on_row(q, id, back_columns(now, seq));
    let p = either(failed, back);
    let rec = recurrence_of(queues, q);
    assert forall|retries: Seq<(Seq<char>, i64, i64)>| surely(
        #[trigger] rest_of(m, queues, q, epoch, seq, now, o@, retries),
        kept_well(),
        p,
    ) by {
        let (n, r) = sorted_out(m, rec, q, o@, retries);
        if r is Ok {
            lemma_placed(m, rec, q, o@, retries, k);
            if state_after(rec, o@[k], retries)->Ok_0 is Failed {
                lemma_rest_first(
                    m,
                    queues,
                    q,
                    epoch,
                    seq,
                    now,
                    o@,
                    retries,
                    id,
                    end_columns("Failed"@, now, epoch, seq),
                );
                lemma_surely_weaker(
                    rest_of(m, queues, q, epoch, seq, now, o@, retries),
                    kept_well(),
                    failed,
                    p,
                );
            } else {
                lemma_rest_first(
                    m,
                    queues,
                    q,
                    epoch,
                    seq,
                    now,
                    o@,
                    retries,
                    id,
                    back_columns(now, seq),
                );
                lemma_surely_weaker(
                    rest_of(m, queues, q, epoch, seq, now, o@, retries),
                    kept_well(),
                    back,
                    p,
                );
            }
        }
    }
    lemma_finalizes(m, queues, q, epoch, seq, now, o, p);
    if o@[k].not_before is Some {
        let t = nanos(o@[k].not_before->Some_0);
        let waits = on_row(q, id, wait_columns(CellV::Integer(t), t));
        let w = either(failed, waits);
        assert forall|retries: Seq<(Seq<char>, i64, i64)>| surely(
            #[trigger] rest_of(m, queues, q, epoch, seq, now, o@, retries),
            kept_well(),
            w,
        ) by {
            let (n, r) = sorted_out(m, rec, q, o@, retries);
            if r is Ok {
                lemma_placed(m, rec, q, o@, retries, k);
                if state_after(rec, o@[k], retries)->Ok_0 is Failed {
                    lemma_rest_first(
                        m,
                        queues,
                        q,
                        epoch,
                        seq,
                        now,
                        o@,
                        retries,
                        id,
                        end_columns("Failed"@, now, epoch, seq),
                    );
                    lemma_surely_weaker(
                        rest_of(m, queues, q, epoch, seq, now, o@, retries),
                        kept_well(),
                        failed,
                        w,
                    );
                } else {
                    lemma_reschedules(q, r->Ok_0, now, o@[k], CellV::Integer(t), t);
                    lemma_rest_then(m, queues, q, epoch, seq, now, o@, retries, waits);
                    lemma_surely_weaker(
                        rest_of(m, queues, q, epoch, seq, now, o@, retries),
                        kept_well(),
                        waits,
                        w,
                    );
                }
            }
        }
        lemma_finalizes(m, queues, q, epoch, seq, now, o, w);
    }
}

proof fn lemma_rest_first(
    m: MemoryV,
    queues: Map<QueueV, QueueDefinition>,
    q: QueueV,
    epoch: u64,
    seq: u64,
    now: UtcTimestamp,
    o: Seq<FinalizeOutcome>,
    retries: Seq<(Seq<char>, i64, i64)>,
    id: ItemId,
    columns: Seq<(Seq<char>, CellV)>,
)
    requires
        sorted_out(m, recurrence_of(queues, q), q, o, retries).1 is Ok,
        ({
            let b = sorted_out(m, recurrence_of(queues, q), q, o, retries).1->Ok_0;
            let t = numeral(id as nat);
            ||| b.failed.contains(t) && columns == end_columns("Failed"@, now, epoch, seq)
            ||| b.pending.contains(t) && columns == back_columns(now, seq)
        }),
    ensures
        surely(
            rest_of(m, queues, q, epoch, seq, now, o, retries),
            kept_well(),
            on_row(q, id, columns),
        ),
{
    let rec = recurrence_of(queues, q);
    let (n, r) = sorted_out(m, rec, q, o, retries);
    let b = r->Ok_0;
    lemma_settles_all(plain(n, q), q, b, now, epoch, seq, id, columns);
    lemma_hold_first(
        n,
        settles_all(plain(n, q), q, b, nanos(now), epoch, seq),
        |v: ()|
            hold(
                n,
                reschedules(q, b, nanos(now)),
                |w: ()| rejoins(n, rec, q, o, retries, nanos(now)),
            ),
        on_row(q, id, columns),
    );
}

} // verus!
