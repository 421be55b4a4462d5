//! What commands surely write into the rows of the store.

use crate::relational::codec::{id_texts, nanos, token_hash};
use crate::relational::columns::{lemma_claim_cohort_items, lemma_claim_listed_end, lemma_claim_range, lemma_expire_items, lemma_reassign_items, lemma_renew_items};
use crate::relational::command::commands;
use crate::relational::lease_commands::{CLAIM_COHORT_ITEMS, CLAIM_LISTED, CLAIM_LISTED_END, CLAIM_RANGE, EXPIRE_ITEMS, REASSIGN_ITEMS, RENEW_ITEMS, alone, claim_cells, leases_items, leases_listed, leases_range, renews};
use crate::relational::lists::{ITEMS_PER_STATEMENT, flat, listed, on_items, over_list, over_rows, repeated, rows_in, valued};
use crate::relational::memory::{Kept, MemoryV, hint_reset, hold, pass, plain};
use crate::relational::requests::extends_claims;
use crate::relational::scan::{advances_scan, asks_range, scan_moved};
use crate::relational::script::{Said, Script, chain, chunks, done};
use crate::relational::told::{binds, kept_well, lemma_chain_first, lemma_done_says, lemma_each_says, lemma_hold_first, lemma_hold_then, lemma_marks_behind, lemma_pass_first, marks, surely, well};
use crate::relational::update::UPDATE_FIELDS_BATCH;
use crate::relational::value::{CellV, text_cell, text_cells};
use crate::text::{numeral, opt_text};
use crate::types::{ClaimCommand, CohortClaimCommand, ErrorV, ItemId, QueueCommand, QueueDefinition, QueueV, ReassignLeaseCommand, RenewLeaseCommand, UtcTimestamp};
use vstd::prelude::*;
use vstd::string::*;

verus! {

/// The statement gives each column its value, in the rows of one queue.
pub open spec fn binds_all(
    q: QueueV,
    sql: Seq<char>,
    ps: Seq<CellV>,
    columns: Seq<(Seq<char>, CellV)>,
) -> bool {
    &&& binds(sql, ps, "tenant_id"@, CellV::Text(q.tenant_id))
    &&& binds(sql, ps, "queue_id"@, CellV::Text(q.queue_id))
    &&& forall|j: int|
        0 <= j < columns.len() ==> binds(sql, ps, (#[trigger] columns[j]).0, columns[j].1)
}

/// A statement on rows of the queue that names the item, or the stretch of rows that it stands in.
pub open spec fn on_row(q: QueueV, id: ItemId, columns: Seq<(Seq<char>, CellV)>) -> spec_fn(
    Said,
) -> bool {
    |s: Said|
        match s {
            Said::Run(sql, ps) => binds_all(q, sql, ps, columns) && (ps.contains(
                CellV::Text(numeral(id as nat)),
            ) || by_stretch(sql)),
            _ => false,
        }
}

/// A text stands at a place of another.
pub open spec fn reads_at(sql: Seq<char>, k: int, t: Seq<char>) -> bool {
    0 <= k && k + t.len() <= sql.len() && sql.subrange(k, k + t.len()) == t
}

/// The rows are named by their stretch.
pub open spec fn by_stretch(sql: Seq<char>) -> bool {
    exists|k: int| reads_at(sql, k, "rowid BETWEEN "@)
}

proof fn lemma_chunk_of<A>(list: Seq<A>, n: nat, x: A) -> (j: int)
    requires
        n > 0,
        list.contains(x),
    ensures
        0 <= j < chunks(list, n).len(),
        chunks(list, n)[j].contains(x),
    decreases list.len(),
{
    if list.len() <= n {
        assert(chunks(list, n)[0] == list);
        0
    } else {
        let i = choose|i: int| 0 <= i < list.len() && list[i] == x;
        if i < n {
            assert(list.take(n as int)[i] == x);
            assert(chunks(list, n)[0] == list.take(n as int));
            0
        } else {
            let rest = list.skip(n as int);
            assert(rest[i - n] == x);
            let j = lemma_chunk_of(rest, n, x);
            assert(chunks(list, n)[j + 1] == chunks(rest, n)[j]);
            j + 1
        }
    }
}

/// A statement over a list of items surely names each of them.
pub proof fn lemma_items_told(
    prefix: Seq<char>,
    lead: Seq<CellV>,
    q: QueueV,
    ids: Seq<Seq<char>>,
    id: Seq<char>,
    p: spec_fn(Said) -> bool,
)
    requires
        ids.contains(id),
        forall|chunk: Seq<Seq<char>>| #[trigger]
            chunk.contains(id) ==> p(
                Said::Run(
                    listed(prefix, chunk.len(), Seq::empty()),
                    lead.push(CellV::Text(q.tenant_id)).push(CellV::Text(q.queue_id)) + text_cells(
                        chunk,
                    ),
                ),
            ),
    ensures
        surely(on_items(prefix, lead, q, ids), well(), p),
{
    let n = ITEMS_PER_STATEMENT as nat;
    let all = lead.push(CellV::Text(q.tenant_id)).push(CellV::Text(q.queue_id));
    let j = lemma_chunk_of(ids, n, id);
    let chunk = chunks(ids, n)[j];
    lemma_done_says(listed(prefix, chunk.len(), Seq::empty()), all + text_cells(chunk), p);
    assert(over_list(prefix, all)(chunk) == done(
        listed(prefix, chunk.len(), Seq::empty()),
        all + text_cells(chunk),
    ));
    lemma_each_says(chunks(ids, n), over_list(prefix, all), j, p);
}

/// A text of a list stands among the parameters.
pub proof fn lemma_named_in(lead: Seq<CellV>, chunk: Seq<Seq<char>>, id: Seq<char>)
    requires
        chunk.contains(id),
    ensures
        (lead + text_cells(chunk)).contains(CellV::Text(id)),
{
    let i = choose|i: int| 0 <= i < chunk.len() && chunk[i] == id;
    assert((lead + text_cells(chunk))[lead.len() + i] == CellV::Text(id));
}

pub proof fn lemma_id_text(ids: Seq<ItemId>, id: ItemId)
    requires
        ids.contains(id),
    ensures
        id_texts(ids).contains(numeral(id as nat)),
{
    let i = choose|i: int| 0 <= i < ids.len() && ids[i] == id;
    assert(id_texts(ids)[i] == numeral(id as nat));
}

/// A statement over a list of items surely writes the row of each of them.
pub proof fn lemma_rows_told(
    prefix: Seq<char>,
    lead: Seq<CellV>,
    q: QueueV,
    ids: Seq<ItemId>,
    id: ItemId,
    columns: Seq<(Seq<char>, CellV)>,
)
    requires
        ids.contains(id),
        forall|n: nat, ps: Seq<CellV>|
            ps.len() >= lead.len() + 2 && ps.take(lead.len() as int + 2) == lead.push(
                CellV::Text(q.tenant_id),
            ).push(CellV::Text(q.queue_id)) ==> #[trigger] binds_all(
                q,
                listed(prefix, n, Seq::empty()),
                ps,
                columns,
            ),
    ensures
        surely(on_items(prefix, lead, q, id_texts(ids)), well(), on_row(q, id, columns)),
{
    let p = on_row(q, id, columns);
    let t = numeral(id as nat);
    let all = lead.push(CellV::Text(q.tenant_id)).push(CellV::Text(q.queue_id));
    lemma_id_text(ids, id);
    assert forall|chunk: Seq<Seq<char>>| #[trigger] chunk.contains(t) implies p(
        Said::Run(listed(prefix, chunk.len(), Seq::empty()), all + text_cells(chunk)),
    ) by {
        let ps = all + text_cells(chunk);
        lemma_named_in(all, chunk, t);
        assert(ps.take(lead.len() as int + 2) =~= all);
        assert(binds_all(q, listed(prefix, chunk.len(), Seq::empty()), ps, columns));
    }
    lemma_items_told(prefix, lead, q, id_texts(ids), t, p);
}

/// What a renewal writes.
pub open spec fn renewal_columns(until: UtcTimestamp, now: UtcTimestamp, seq: u64) -> Seq<
    (Seq<char>, CellV),
> {
    seq![
        ("lease_expires_at"@, CellV::Integer(nanos(until))),
        ("updated_at"@, CellV::Integer(nanos(now))),
        ("last_command_sequence"@, CellV::Integer(seq as i64)),
    ]
}

/// Whatever the store replies, a renewal that goes well has told it to give each named item the expiry
/// of the command.
pub proof fn law_stored_renewals_move_the_expiry(
    m: MemoryV,
    queues: Map<QueueV, QueueDefinition>,
    q: QueueV,
    epoch: u64,
    seq: u64,
    now: UtcTimestamp,
    c: RenewLeaseCommand,
    id: ItemId,
)
    requires
        c.item_ids@.contains(id),
    ensures
        surely(
            commands(m, queues, q, epoch, seq, now, QueueCommand::RenewLease(c)),
            kept_well(),
            on_row(q, id, renewal_columns(c.lease_expires_at, now, seq)),
        ),
{
    let columns = renewal_columns(c.lease_expires_at, now, seq);
    let p = on_row(q, id, columns);
    let lead = Seq::<CellV>::empty().push(CellV::Integer(nanos(c.lease_expires_at))).push(
        CellV::Integer(nanos(now)),
    ).push(CellV::Integer(seq as i64));
    let all = lead.push(CellV::Text(q.tenant_id)).push(CellV::Text(q.queue_id));
    assert forall|n: nat, ps: Seq<CellV>|
        ps.len() >= lead.len() + 2 && ps.take(lead.len() as int + 2)
            == all implies #[trigger] binds_all(
        q,
        listed(RENEW_ITEMS@, n, Seq::empty()),
        ps,
        columns,
    ) by {
        lemma_renew_items(n, ps);
        assert(ps[0] == all[0] && ps[1] == all[1] && ps[2] == all[2] && ps[3] == all[3] && ps[4]
            == all[4]);
    }
    lemma_rows_told(RENEW_ITEMS@, lead, q, c.item_ids@, id, columns);
    let g = renews(q, c.item_ids@, c.lease_expires_at, nanos(now), seq);
    let k = |u: ()| extends_claims(q, c.item_ids@, c.lease_expires_at);
    lemma_chain_first(g, k, p);
    lemma_hold_first(m, chain(g, k), |u: ()| Script::Done((m, Ok::<(), ErrorV>(()))), p);
}

/// What a reassignment writes.
pub open spec fn reassignment_columns(c: ReassignLeaseCommand, now: UtcTimestamp, seq: u64) -> Seq<
    (Seq<char>, CellV),
> {
    seq![
        ("lease_token_hash"@, CellV::Blob(token_hash(c.lease_token@))),
        ("lease_expires_at"@, CellV::Integer(nanos(c.lease_expires_at))),
        ("updated_at"@, CellV::Integer(nanos(now))),
        ("last_command_sequence"@, CellV::Integer(seq as i64)),
    ]
}

/// Whatever the store replies, a reassignment that goes well has told it to give each named item the
/// token and the expiry of the command.
pub proof fn law_stored_reassignments_change_the_holder(
    m: MemoryV,
    queues: Map<QueueV, QueueDefinition>,
    q: QueueV,
    epoch: u64,
    seq: u64,
    now: UtcTimestamp,
    c: ReassignLeaseCommand,
    id: ItemId,
)
    requires
        c.item_ids@.contains(id),
    ensures
        surely(
            commands(m, queues, q, epoch, seq, now, QueueCommand::ReassignLease(c)),
            kept_well(),
            on_row(q, id, reassignment_columns(c, now, seq)),
        ),
{
    let columns = reassignment_columns(c, now, seq);
    let p = on_row(q, id, columns);
    let whole = commands(m, queues, q, epoch, seq, now, QueueCommand::ReassignLease(c));
    let lead = Seq::<CellV>::empty().push(CellV::Blob(token_hash(c.lease_token@))).push(
        CellV::Integer(nanos(c.lease_expires_at)),
    ).push(CellV::Integer(nanos(now))).push(CellV::Integer(seq as i64));
    let all = lead.push(CellV::Text(q.tenant_id)).push(CellV::Text(q.queue_id));
    assert forall|n: nat, ps: Seq<CellV>|
        ps.len() >= lead.len() + 2 && ps.take(lead.len() as int + 2)
            == all implies #[trigger] binds_all(
        q,
        listed(REASSIGN_ITEMS@, n, Seq::empty()),
        ps,
        columns,
    ) by {
        lemma_reassign_items(n, ps);
        assert(ps[0] == all[0] && ps[1] == all[1] && ps[2] == all[2] && ps[3] == all[3] && ps[4]
            == all[4] && ps[5] == all[5]);
    }
    lemma_rows_told(REASSIGN_ITEMS@, lead, q, c.item_ids@, id, columns);
    lemma_held_first(whole, on_items(REASSIGN_ITEMS@, lead, q, id_texts(c.item_ids@)), m, p);
}

/// A conversation that begins with a part says what the part says.
proof fn lemma_held_first(
    whole: Script<Kept<()>>,
    g: Script<Result<(), ErrorV>>,
    m: MemoryV,
    p: spec_fn(Said) -> bool,
)
    requires
        surely(g, well(), p),
        exists|k: spec_fn(()) -> Script<Kept<()>>| whole == #[trigger] hold(m, g, k),
    ensures
        surely(whole, kept_well(), p),
{
    let k = choose|k: spec_fn(()) -> Script<Kept<()>>| whole == #[trigger] hold(m, g, k);
    lemma_hold_first(m, g, k, p);
}

/// What a claim writes.
pub open spec fn claim_columns(
    token: Seq<char>,
    until: UtcTimestamp,
    now: UtcTimestamp,
    seq: u64,
) -> Seq<(Seq<char>, CellV)> {
    seq![
        ("lease_token_hash"@, CellV::Blob(token_hash(token))),
        ("lease_expires_at"@, CellV::Integer(nanos(until))),
        ("updated_at"@, CellV::Integer(nanos(now))),
        ("last_command_sequence"@, CellV::Integer(seq as i64)),
    ]
}

/// Whatever the store replies, a claim of a cohort that goes well has told it to give each named item
/// the token and the expiry of the command.
pub proof fn law_stored_cohort_claims_give_the_lease(
    m: MemoryV,
    queues: Map<QueueV, QueueDefinition>,
    q: QueueV,
    epoch: u64,
    seq: u64,
    now: UtcTimestamp,
    c: CohortClaimCommand,
    id: ItemId,
)
    requires
        c.item_ids@.contains(id),
    ensures
        surely(
            commands(m, queues, q, epoch, seq, now, QueueCommand::CohortClaim(c)),
            kept_well(),
            on_row(q, id, claim_columns(c.lease_token@, c.lease_expires_at, now, seq)),
        ),
{
    let columns = claim_columns(c.lease_token@, c.lease_expires_at, now, seq);
    let p = on_row(q, id, columns);
    let whole = commands(m, queues, q, epoch, seq, now, QueueCommand::CohortClaim(c));
    let lead = Seq::<CellV>::empty().push(CellV::Blob(token_hash(c.lease_token@))).push(
        CellV::Integer(nanos(c.lease_expires_at)),
    ).push(CellV::Integer(nanos(now))).push(CellV::Integer(seq as i64));
    let all = lead.push(CellV::Text(q.tenant_id)).push(CellV::Text(q.queue_id));
    assert forall|n: nat, ps: Seq<CellV>|
        ps.len() >= lead.len() + 2 && ps.take(lead.len() as int + 2)
            == all implies #[trigger] binds_all(
        q,
        listed(CLAIM_COHORT_ITEMS@, n, Seq::empty()),
        ps,
        columns,
    ) by {
        lemma_claim_cohort_items(n, ps);
        assert(ps[0] == all[0] && ps[1] == all[1] && ps[2] == all[2] && ps[3] == all[3] && ps[4]
            == all[4] && ps[5] == all[5]);
    }
    lemma_rows_told(CLAIM_COHORT_ITEMS@, lead, q, c.item_ids@, id, columns);
    lemma_held_first(
        whole,
        on_items(CLAIM_COHORT_ITEMS@, lead, q, id_texts(c.item_ids@)),
        hint_reset(m, q),
        p,
    );
}

/// What the expiry of a lease writes.
pub open spec fn expiry_columns(now: UtcTimestamp, seq: u64) -> Seq<(Seq<char>, CellV)> {
    seq![
        ("updated_at"@, CellV::Integer(nanos(now))),
        ("last_command_sequence"@, CellV::Integer(seq as i64)),
    ]
}

/// Whatever the store replies, the expiry of leases that goes well has told it so of each named item.
pub proof fn law_stored_expiries_name_their_items(
    m: MemoryV,
    queues: Map<QueueV, QueueDefinition>,
    q: QueueV,
    epoch: u64,
    seq: u64,
    now: UtcTimestamp,
    ids: Vec<ItemId>,
    id: ItemId,
)
    requires
        ids@.contains(id),
    ensures
        surely(
            commands(m, queues, q, epoch, seq, now, QueueCommand::LeaseExpired(ids)),
            kept_well(),
            on_row(q, id, expiry_columns(now, seq)),
        ),
{
    let columns = expiry_columns(now, seq);
    let p = on_row(q, id, columns);
    let whole = commands(m, queues, q, epoch, seq, now, QueueCommand::LeaseExpired(ids));
    let lead = Seq::<CellV>::empty().push(CellV::Integer(nanos(now))).push(
        CellV::Integer(seq as i64),
    ).push(CellV::Integer(nanos(now)));
    let all = lead.push(CellV::Text(q.tenant_id)).push(CellV::Text(q.queue_id));
    assert forall|n: nat, ps: Seq<CellV>|
        ps.len() >= lead.len() + 2 && ps.take(lead.len() as int + 2)
            == all implies #[trigger] binds_all(
        q,
        listed(EXPIRE_ITEMS@, n, Seq::empty()),
        ps,
        columns,
    ) by {
        lemma_expire_items(n, ps);
        assert(ps[0] == all[0] && ps[1] == all[1] && ps[2] == all[2] && ps[3] == all[3] && ps[4]
            == all[4]);
    }
    lemma_rows_told(EXPIRE_ITEMS@, lead, q, ids@, id, columns);
    lemma_held_first(
        whole,
        on_items(EXPIRE_ITEMS@, lead, q, id_texts(ids@)),
        hint_reset(m, q),
        p,
    );
}

proof fn lemma_marks_of_rows(n: nat)
    ensures
        marks(repeated("(?)"@, n), repeated("(?)"@, n).len() as int) == n,
    decreases n,
{
    reveal_strlit("(?)");
    reveal_strlit(",");
    let t = repeated("(?)"@, n);
    if n == 1 {
        reveal_with_fuel(marks, 4);
    } else if n > 1 {
        lemma_marks_of_rows((n - 1) as nat);
        let a = repeated("(?)"@, (n - 1) as nat);
        let b = ","@ + "(?)"@;
        assert(t =~= a + b);
        lemma_marks_behind(a, b, 4);
        assert(marks(b, 4) == 1) by {
            reveal_with_fuel(marks, 6);
        }
    }
}

proof fn lemma_lone_rows(rows: Seq<Seq<char>>)
    ensures
        flat(rows.map_values(alone())).len() == rows.len(),
        forall|t: Seq<char>|
            rows.contains(t) ==> #[trigger] flat(rows.map_values(alone())).contains(CellV::Text(t)),
    decreases rows.len(),
{
    let all = rows.map_values(alone());
    if rows.len() > 0 {
        let rest = rows.drop_last();
        lemma_lone_rows(rest);
        assert(all.drop_last() =~= rest.map_values(alone()));
        assert(all.last() == alone()(rows.last()));
        let f = flat(rest.map_values(alone()));
        assert(flat(all) == f + all.last());
        assert forall|t: Seq<char>| rows.contains(t) implies #[trigger] flat(all).contains(
            CellV::Text(t),
        ) by {
            let i = choose|i: int| 0 <= i < rows.len() && rows[i] == t;
            if i < rest.len() {
                assert(rest[i] == t);
                assert(rest.contains(t));
                assert(f.contains(CellV::Text(t)));
                let j = choose|j: int| 0 <= j < f.len() && f[j] == CellV::Text(t);
                assert(flat(all)[j] == CellV::Text(t));
            } else {
                assert(flat(all)[f.len() as int] == CellV::Text(t));
            }
        }
    }
}

proof fn lemma_chunks_of_rows(rows: Seq<Seq<char>>, n: nat)
    requires
        n > 0,
    ensures
        chunks(rows.map_values(alone()), n) == chunks(rows, n).map_values(
            |c: Seq<Seq<char>>| c.map_values(alone()),
        ),
    decreases rows.len(),
{
    let all = rows.map_values(alone());
    let g = |c: Seq<Seq<char>>| c.map_values(alone());
    if rows.len() == 0 || rows.len() <= n {
        assert(chunks(all, n) =~= chunks(rows, n).map_values(g));
    } else {
        lemma_chunks_of_rows(rows.skip(n as int), n);
        assert(all.take(n as int) =~= rows.take(n as int).map_values(alone()));
        assert(all.skip(n as int) =~= rows.skip(n as int).map_values(alone()));
        assert(chunks(all, n) =~= chunks(rows, n).map_values(g));
    }
}

/// What a claim of items writes: the lease and its worker.
pub open spec fn item_claim_columns(c: ClaimCommand, now: UtcTimestamp, seq: u64) -> Seq<
    (Seq<char>, CellV),
> {
    claim_columns(c.lease_token@, c.lease_expires_at, now, seq).push(
        ("worker_id"@, text_cell(opt_text(c.worker_id))),
    )
}

proof fn lemma_claim_listed_says(q: QueueV, seq: u64, now: UtcTimestamp, c: ClaimCommand, id: ItemId)
    requires
        c.item_ids@.contains(id),
    ensures
        surely(
            rows_in(
                CLAIM_LISTED@,
                "(?)"@,
                CLAIM_LISTED_END@,
                id_texts(c.item_ids@).map_values(alone()),
                claim_cells(c, nanos(now), seq).push(CellV::Text(q.tenant_id)).push(
                    CellV::Text(q.queue_id),
                ),
                UPDATE_FIELDS_BATCH as nat,
            ),
            well(),
            on_row(q, id, item_claim_columns(c, now, seq)),
        ),
{
    let p = on_row(q, id, item_claim_columns(c, now, seq));
    let t = numeral(id as nat);
    let ids = id_texts(c.item_ids@);
    let tail = claim_cells(c, nanos(now), seq).push(CellV::Text(q.tenant_id)).push(
        CellV::Text(q.queue_id),
    );
    let size = UPDATE_FIELDS_BATCH as nat;
    let rows = ids.map_values(alone());
    lemma_id_text(c.item_ids@, id);
    let j = lemma_chunk_of(ids, size, t);
    lemma_chunks_of_rows(ids, size);
    let chunk = chunks(ids, size)[j];
    let lone = chunk.map_values(alone());
    assert(chunks(rows, size)[j] == lone);
    lemma_lone_rows(chunk);
    lemma_marks_of_rows(chunk.len());
    let n = chunk.len();
    let head = CLAIM_LISTED@ + repeated("(?)"@, n);
    let sql = valued(CLAIM_LISTED@, "(?)"@, n, CLAIM_LISTED_END@);
    assert(sql =~= head + CLAIM_LISTED_END@);
    let ps = flat(lone) + tail;
    assert(marks(CLAIM_LISTED@, CLAIM_LISTED@.len() as int) == 0) by {
        reveal_strlit("WITH incoming(item_id) AS (VALUES ");
        reveal_with_fuel(marks, 40);
    }
    lemma_marks_behind(CLAIM_LISTED@, repeated("(?)"@, n), repeated("(?)"@, n).len() as int);
    assert(marks(head, head.len() as int) == n);
    lemma_claim_listed_end(head, ps);
    let b = n as int;
    assert(ps[b] == tail[0] && ps[b + 1] == tail[1] && ps[b + 2] == tail[2] && ps[b + 3] == tail[3]
        && ps[b + 4] == tail[4] && ps[b + 5] == tail[5] && ps[b + 6] == tail[6]);
    assert(ps.contains(CellV::Text(t))) by {
        assert(flat(lone).contains(CellV::Text(t)));
        let i = choose|i: int| 0 <= i < flat(lone).len() && flat(lone)[i] == CellV::Text(t);
        assert(ps[i] == CellV::Text(t));
    }
    lemma_done_says(sql, ps, p);
    let f = over_rows(CLAIM_LISTED@, "(?)"@, CLAIM_LISTED_END@, tail);
    assert(f(lone) == done(sql, ps));
    lemma_each_says(chunks(rows, size), f, j, p);
}

proof fn lemma_claim_range_says(
    q: QueueV,
    seq: u64,
    now: UtcTimestamp,
    c: ClaimCommand,
    id: ItemId,
    span: (i64, i64),
)
    ensures
        surely(
            done(
                CLAIM_RANGE@,
                claim_cells(c, nanos(now), seq).push(CellV::Text(q.tenant_id)).push(
                    CellV::Text(q.queue_id),
                ).push(CellV::Integer(span.0)).push(CellV::Integer(span.1)),
            ),
            well(),
            on_row(q, id, item_claim_columns(c, now, seq)),
        ),
{
    let ps = claim_cells(c, nanos(now), seq).push(CellV::Text(q.tenant_id)).push(
        CellV::Text(q.queue_id),
    ).push(CellV::Integer(span.0)).push(CellV::Integer(span.1));
    lemma_claim_range(ps);
    assert(by_stretch(CLAIM_RANGE@)) by {
        reveal_strlit(
            "UPDATE fireweed_items SET lifecycle_state='Leased', lease_token_hash=?1, lease_expires_at=?2, worker_id=?3, retry_count=retry_count+1, item_version=item_version+1, updated_at=?4, last_command_sequence=?5 WHERE tenant_id=?6 AND queue_id=?7 AND rowid BETWEEN ?8 AND ?9 AND lifecycle_state='Pending' AND superseded=0",
        );
        reveal_strlit("rowid BETWEEN ");
        assert(CLAIM_RANGE@.subrange(243, 257) =~= "rowid BETWEEN "@);
        assert(reads_at(CLAIM_RANGE@, 243, "rowid BETWEEN "@));
    }
    lemma_done_says(CLAIM_RANGE@, ps, on_row(q, id, item_claim_columns(c, now, seq)));
}

/// Whatever the store replies, a claim that goes well has told it to give each named item the token, the
/// expiry and the worker of the command: the expiry that is stored is the one that was claimed.
pub proof fn law_stored_claims_give_the_lease(
    m: MemoryV,
    queues: Map<QueueV, QueueDefinition>,
    q: QueueV,
    epoch: u64,
    seq: u64,
    now: UtcTimestamp,
    c: ClaimCommand,
    id: ItemId,
)
    requires
        c.item_ids@.contains(id),
    ensures
        surely(
            commands(m, queues, q, epoch, seq, now, QueueCommand::Claim(c)),
            kept_well(),
            on_row(q, id, item_claim_columns(c, now, seq)),
        ),
{
    let p = on_row(q, id, item_claim_columns(c, now, seq));
    let at = nanos(now);
    let whole = commands(m, queues, q, epoch, seq, now, QueueCommand::Claim(c));
    lemma_claim_listed_says(q, seq, now, c, id);
    lemma_hold_first(
        m,
        rows_in(
            CLAIM_LISTED@,
            "(?)"@,
            CLAIM_LISTED_END@,
            id_texts(c.item_ids@).map_values(alone()),
            claim_cells(c, at, seq).push(CellV::Text(q.tenant_id)).push(CellV::Text(q.queue_id)),
            UPDATE_FIELDS_BATCH as nat,
        ),
        |u: ()| advances_scan(m, q, c.item_ids@),
        p,
    );
    assert(surely(leases_listed(m, q, seq, at, c), kept_well(), p));
    assert(surely(leases_items(m, q, seq, at, c), kept_well(), p)) by {
        if plain(m, q) {
            let k = |range: Option<(i64, i64)>|
                match range {
                    Some(span) => leases_range(m, q, seq, at, c, span),
                    None => leases_listed(m, q, seq, at, c),
                };
            assert forall|range: Option<(i64, i64)>| surely(#[trigger] k(range), kept_well(), p) by {
                match range {
                    Some(span) => {
                        lemma_claim_range_says(q, seq, now, c, id, span);
                        lemma_hold_first(
                            m,
                            done(
                                CLAIM_RANGE@,
                                claim_cells(c, at, seq).push(CellV::Text(q.tenant_id)).push(
                                    CellV::Text(q.queue_id),
                                ).push(CellV::Integer(span.0)).push(CellV::Integer(span.1)),
                            ),
                            |u: ()| Script::Done(scan_moved(m, q, span.1)),
                            p,
                        );
                    },
                    None => {},
                }
            }
            lemma_hold_then(m, asks_range(q, id_texts(c.item_ids@), Some("Pending"@)), k, p);
        }
    }
    lemma_passed_first(whole, leases_items(m, q, seq, at, c), p);
}

proof fn lemma_passed_first(
    whole: Script<Kept<()>>,
    g: Script<Kept<()>>,
    p: spec_fn(Said) -> bool,
)
    requires
        surely(g, kept_well(), p),
        exists|k: spec_fn(MemoryV, ()) -> Script<Kept<()>>| whole == #[trigger] pass(g, k),
    ensures
        surely(whole, kept_well(), p),
{
    let k = choose|k: spec_fn(MemoryV, ()) -> Script<Kept<()>>| whole == #[trigger] pass(g, k);
    lemma_pass_first(g, k, p);
}

/// Moments that the store can hold keep their order there, and two moments are one where they are equal.
pub proof fn law_stored_moments_keep_their_order(a: UtcTimestamp, b: UtcTimestamp)
    requires
        a.nanoseconds < 1_000_000_000,
        b.nanoseconds < 1_000_000_000,
        i64::MIN <= a.seconds * 1_000_000_000,
        a.seconds * 1_000_000_000 + a.nanoseconds <= i64::MAX,
        i64::MIN <= b.seconds * 1_000_000_000,
        b.seconds * 1_000_000_000 + b.nanoseconds <= i64::MAX,
    ensures
        nanos(a) == a.seconds * 1_000_000_000 + a.nanoseconds,
        nanos(a) < nanos(b) <==> a.seconds < b.seconds || (a.seconds == b.seconds && a.nanoseconds
            < b.nanoseconds),
        nanos(a) == nanos(b) <==> a == b,
{
}

} // verus!
