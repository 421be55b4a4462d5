//! A claim in one transaction: choose the due rows, lease them and record the claim.

use crate::relational::codec::{coded, lease_hash, render_texts, texts_json, token_hash, wrap_sum, wrapped_sum};
use crate::relational::exec::{RelSession, RelTx, rel_done, rel_exec, rel_query};
use crate::relational::script::{Script, all_of, chain, done, group_talk, held, lemma_all_of_step, lemma_all_of_stops, lemma_start, read, run};
use crate::relational::value::{CellV, Params, RelRow, bytes_opt, column, int_cell, rows_v, text_cell, text_cells};
use crate::sql::async_projection::{item_list, with_item_ids};
use crate::text::{numeral, opt_text, push_u64, texts};
use crate::types::{EngineError, EngineResult, ErrorV};
use vstd::prelude::*;
use vstd::string::*;

verus! {

broadcast use group_talk;

/// The next due pending items with their payloads, in claim order.
pub const SELECT_CLASS_S_DUE: &'static str = "SELECT item_id, client_item_key, payload, item_version, \
     retry_count FROM fireweed_items \
     WHERE tenant_id=?1 AND queue_id=?2 AND lifecycle_state='Pending' AND superseded=0 \
     AND cohort_size IS NULL AND (not_before IS NULL OR not_before<=?3) \
     AND eligible_since IS NOT NULL AND NOT EXISTS (SELECT 1 FROM fireweed_item_gates ig \
     JOIN fireweed_gate_state gs ON gs.tenant_id=ig.tenant_id AND gs.queue_id=ig.queue_id \
     AND gs.gate_key=ig.gate_key WHERE ig.tenant_id=fireweed_items.tenant_id \
     AND ig.queue_id=fireweed_items.queue_id AND ig.item_id=fireweed_items.item_id) \
     ORDER BY priority_sort, created_seq, item_id LIMIT ?4";

pub const INSERT_CLAIM_OUTBOX: &'static str = "INSERT INTO fireweed_claim_outbox (\
     tenant_id, queue_id, outbox_id, item_ids, lease_token, lease_expires_at, \
     request_id, request_fingerprint, worker_id, claim_unit, cohort_id, created_at) \
     VALUES (?1,?2,?3,?4,?5,?6,?7,?8,?9,?10,?11,?12)";

pub const DELETE_CLAIM_OUTBOX: &'static str = "DELETE FROM fireweed_claim_outbox \
     WHERE tenant_id=?1 AND queue_id=?2 AND outbox_id=?3";

pub const SELECT_CLAIM_OUTBOX_FOR_QUEUE: &'static str = "SELECT outbox_id, item_ids, lease_token, \
     lease_expires_at, request_id, request_fingerprint, worker_id, claim_unit, cohort_id, created_at \
     FROM fireweed_claim_outbox WHERE tenant_id=?1 AND queue_id=?2 ORDER BY created_at, outbox_id";

/// Lease the rows that are still pending among those named.
pub const UPDATE_CLASS_S_LEASED: &'static str = "UPDATE fireweed_items SET lifecycle_state='Leased', lease_token_hash=?, \
         lease_expires_at=?, worker_id=?, retry_count=retry_count+1, \
         item_version=item_version+1, updated_at=? \
         WHERE tenant_id=? AND queue_id=? AND lifecycle_state='Pending' AND superseded=0 \
         AND item_id IN";

/// What one claim takes, under which token and into which outbox entry.
pub struct ClassSClaimRequest {
    pub tenant_id: String,
    pub queue_id: String,
    pub now_nanos: i64,
    pub limit: i64,
    pub lease_token: String,
    pub lease_expires_at: i64,
    pub outbox_id: String,
    pub request_id: Option<String>,
    pub request_fingerprint: Option<i64>,
    pub worker_id: Option<String>,
    pub claim_unit: String,
    pub cohort_id: Option<String>,
}

#[derive(Debug, PartialEq, Eq)]
pub struct ClassSClaimedItem {
    pub item_id: String,
    pub client_item_key: String,
    pub payload: Option<Vec<u8>>,
    pub item_version: i64,
    pub retry_count: i64,
    pub lease_expires_at: i64,
}

#[derive(Debug, PartialEq, Eq)]
pub struct ClassSClaimResult {
    pub items: Vec<ClassSClaimedItem>,
    pub outbox_id: String,
}

pub ghost struct ClaimedV {
    pub item_id: Seq<char>,
    pub client_item_key: Seq<char>,
    pub payload: Option<Seq<u8>>,
    pub item_version: i64,
    pub retry_count: i64,
    pub lease_expires_at: i64,
}

impl ClassSClaimedItem {
    pub open spec fn view(&self) -> ClaimedV {
        ClaimedV {
            item_id: self.item_id@,
            client_item_key: self.client_item_key@,
            payload: bytes_opt(self.payload),
            item_version: self.item_version,
            retry_count: self.retry_count,
            lease_expires_at: self.lease_expires_at,
        }
    }
}

pub open spec fn claimed_v(items: Seq<ClassSClaimedItem>) -> Seq<ClaimedV> {
    items.map_values(|i: ClassSClaimedItem| i@)
}

pub open spec fn claim_outcome(r: EngineResult<ClassSClaimResult>) -> Result<
    (Seq<ClaimedV>, Seq<char>),
    ErrorV,
> {
    match r {
        Ok(c) => Ok((claimed_v(c.items@), c.outbox_id@)),
        Err(e) => Err(e@),
    }
}

/// A due row once it is leased: one more version, one more attempt.
pub open spec fn leased_row(expires: i64) -> spec_fn(Seq<CellV>) -> Result<ClaimedV, ErrorV> {
    |row: Seq<CellV>|
        match column::<String>(row, 0) {
            Err(e) => Err(e),
            Ok(item_id) => match column::<String>(row, 1) {
                Err(e) => Err(e),
                Ok(client_item_key) => match column::<Option<Vec<u8>>>(row, 2) {
                    Err(e) => Err(e),
                    Ok(payload) => match column::<i64>(row, 3) {
                        Err(e) => Err(e),
                        Ok(version) => match column::<i64>(row, 4) {
                            Err(e) => Err(e),
                            Ok(retries) => Ok(
                                ClaimedV {
                                    item_id,
                                    client_item_key,
                                    payload,
                                    item_version: wrapped_sum(version, 1),
                                    retry_count: wrapped_sum(retries, 1),
                                    lease_expires_at: expires,
                                },
                            ),
                        },
                    },
                },
            },
        }
}

pub open spec fn claimed_ids(items: Seq<ClaimedV>) -> Seq<Seq<char>> {
    items.map_values(|i: ClaimedV| i.item_id)
}

/// The statement that leases `n` rows.
pub open spec fn lease_sql(n: nat) -> Seq<char> {
    UPDATE_CLASS_S_LEASED@.push(' ') + item_list(n)
}

/// The fault of a lease that did not reach every row it was meant for.
pub open spec fn partial_lease(changed: nat, expected: nat) -> ErrorV {
    ErrorV::Storage(
        "class S lease updated "@ + numeral(changed) + " rows, expected "@ + numeral(expected),
    )
}

/// A claim: nothing is written where nothing is due; otherwise the due rows are leased, all or none,
/// and the claim goes to the outbox.
pub open spec fn claims(c: ClassSClaimRequest) -> Script<
    Result<(Seq<ClaimedV>, Seq<char>), ErrorV>,
> {
    chain(
        read(
            SELECT_CLASS_S_DUE@,
            Seq::<CellV>::empty()
                .push(CellV::Text(c.tenant_id@))
                .push(CellV::Text(c.queue_id@))
                .push(CellV::Integer(c.now_nanos))
                .push(CellV::Integer(c.limit)),
        ),
        |rows: Seq<Seq<CellV>>|
            if rows.len() == 0 {
                Script::Done(Ok::<(Seq<ClaimedV>, Seq<char>), ErrorV>((Seq::empty(), c.outbox_id@)))
            } else {
                match all_of(rows, leased_row(c.lease_expires_at)) {
                    Err(e) => Script::Done(Err(e)),
                    Ok(items) => leases(c, items),
                }
            },
    )
}

/// The rows are leased and the claim is recorded.
pub open spec fn leases(c: ClassSClaimRequest, items: Seq<ClaimedV>) -> Script<
    Result<(Seq<ClaimedV>, Seq<char>), ErrorV>,
> {
    chain(
        run(
            lease_sql(items.len()),
            Seq::<CellV>::empty()
                .push(CellV::Blob(token_hash(c.lease_token@)))
                .push(CellV::Integer(c.lease_expires_at))
                .push(text_cell(opt_text(c.worker_id)))
                .push(CellV::Integer(c.now_nanos))
                .push(CellV::Text(c.tenant_id@))
                .push(CellV::Text(c.queue_id@)) + text_cells(claimed_ids(items)),
        ),
        |changed: usize|
            if changed != items.len() {
                Script::Done(
                    Err::<(Seq<ClaimedV>, Seq<char>), ErrorV>(
                        partial_lease(changed as nat, items.len()),
                    ),
                )
            } else {
                match coded(texts_json(claimed_ids(items))) {
                    Err(e) => Script::Done(Err(e)),
                    Ok(ids) => chain(
                        done(INSERT_CLAIM_OUTBOX@, outbox_row(c, ids)),
                        |u: ()|
                            Script::Done(
                                Ok::<(Seq<ClaimedV>, Seq<char>), ErrorV>((items, c.outbox_id@)),
                            ),
                    ),
                }
            },
    )
}

/// The outbox entry of a claim.
pub open spec fn outbox_row(c: ClassSClaimRequest, ids: Seq<char>) -> Seq<CellV> {
    Seq::<CellV>::empty()
        .push(CellV::Text(c.tenant_id@))
        .push(CellV::Text(c.queue_id@))
        .push(CellV::Text(c.outbox_id@))
        .push(CellV::Text(ids))
        .push(CellV::Text(c.lease_token@))
        .push(CellV::Integer(c.lease_expires_at))
        .push(text_cell(opt_text(c.request_id)))
        .push(int_cell(c.request_fingerprint))
        .push(text_cell(opt_text(c.worker_id)))
        .push(CellV::Text(c.claim_unit@))
        .push(text_cell(opt_text(c.cohort_id)))
        .push(CellV::Integer(c.now_nanos))
}

fn lease_row(row: &RelRow, expires: i64) -> (r: EngineResult<ClassSClaimedItem>)
    ensures
        (match r {
            Ok(i) => Ok(i@),
            Err(e) => Err(e@),
        }) == leased_row(expires)(row@),
{
    let item_id = match row.get::<String>(0) {
        Err(e) => return Err(e),
        Ok(x) => x,
    };
    let client_item_key = match row.get::<String>(1) {
        Err(e) => return Err(e),
        Ok(x) => x,
    };
    let payload = match row.get::<Option<Vec<u8>>>(2) {
        Err(e) => return Err(e),
        Ok(x) => x,
    };
    let version = match row.get::<i64>(3) {
        Err(e) => return Err(e),
        Ok(x) => x,
    };
    let retries = match row.get::<i64>(4) {
        Err(e) => return Err(e),
        Ok(x) => x,
    };
    Ok(
        ClassSClaimedItem {
            item_id,
            client_item_key,
            payload,
            item_version: wrap_sum(version, 1),
            retry_count: wrap_sum(retries, 1),
            lease_expires_at: expires,
        },
    )
}

fn lease_rows(rows: &Vec<RelRow>, expires: i64) -> (r: EngineResult<Vec<ClassSClaimedItem>>)
    ensures
        (match r {
            Ok(v) => Ok(claimed_v(v@)),
            Err(e) => Err(e@),
        }) == all_of(rows_v(rows@), leased_row(expires)),
{
    let ghost all = rows_v(rows@);
    let mut out: Vec<ClassSClaimedItem> = Vec::new();
    let mut i: usize = 0;
    assert(all.take(0) =~= Seq::<Seq<CellV>>::empty());
    assert(claimed_v(out@) =~= Seq::<ClaimedV>::empty());
    while i < rows.len()
        invariant
            i <= rows@.len(),
            all == rows_v(rows@),
            all_of(all.take(i as int), leased_row(expires)) == Ok::<Seq<ClaimedV>, ErrorV>(
                claimed_v(out@),
            ),
        decreases rows@.len() - i,
    {
        proof {
            lemma_all_of_step(all, leased_row(expires), i as int);
            assert(all[i as int] == rows@[i as int]@);
        }
        match lease_row(&rows[i], expires) {
            Err(e) => {
                proof {
                    lemma_all_of_stops(all, leased_row(expires), i as int + 1, e@);
                }
                return Err(e);
            },
            Ok(item) => {
                let ghost before = out@;
                out.push(item);
                assert(claimed_v(out@) =~= claimed_v(before).push(item@));
            },
        }
        i = i + 1;
    }
    assert(all.take(i as int) =~= all);
    Ok(out)
}

fn ids_of_claimed(items: &Vec<ClassSClaimedItem>) -> (r: Vec<String>)
    ensures
        texts(r@) == claimed_ids(claimed_v(items@)),
{
    let mut out: Vec<String> = Vec::new();
    let mut i: usize = 0;
    let ghost all = claimed_ids(claimed_v(items@));
    assert(texts(out@) =~= all.take(0));
    while i < items.len()
        invariant
            i <= items@.len(),
            all == claimed_ids(claimed_v(items@)),
            texts(out@) == all.take(i as int),
        decreases items@.len() - i,
    {
        let ghost before = out@;
        out.push(items[i].item_id.clone());
        assert(texts(out@) =~= texts(before).push(items@[i as int].item_id@));
        assert(all.take(i as int + 1) =~= all.take(i as int).push(all[i as int]));
        i = i + 1;
    }
    assert(all.take(i as int) =~= all);
    out
}

/// Chooses due pending rows, leases them and records the claim in the outbox.
pub fn class_s_claim<T: RelTx>(tx: &mut RelSession<T>, request: &ClassSClaimRequest) -> (r:
    EngineResult<ClassSClaimResult>)
    ensures
        held(old(tx).trace(), final(tx).trace(), claims(*request), claim_outcome(r)),
{
    proof {
        lemma_start(tx.trace(), claims(*request));
    }
    let selected = match rel_query(
        tx,
        SELECT_CLASS_S_DUE,
        Params::new().text(request.tenant_id.as_str()).text(request.queue_id.as_str()).number(
            request.now_nanos,
        ).number(request.limit),
    ) {
        Err(e) => return Err(e),
        Ok(rows) => rows,
    };
    if selected.len() == 0 {
        let items: Vec<ClassSClaimedItem> = Vec::new();
        assert(claimed_v(items@) =~= Seq::<ClaimedV>::empty());
        return Ok(ClassSClaimResult { items, outbox_id: request.outbox_id.clone() });
    }
    let items = match lease_rows(&selected, request.lease_expires_at) {
        Err(e) => return Err(e),
        Ok(v) => v,
    };
    let ids = ids_of_claimed(&items);
    let n = ids.len();
    assert(texts(ids@).len() == n);
    assert(texts(ids@).subrange(0, n as int) =~= texts(ids@));
    let sql = with_item_ids(UPDATE_CLASS_S_LEASED, n);
    let hash = lease_hash(request.lease_token.as_str());
    let changed = match rel_exec(
        tx,
        sql.as_str(),
        Params::new().blob(&hash).number(request.lease_expires_at).maybe_text(
            &request.worker_id,
        ).number(request.now_nanos).text(request.tenant_id.as_str()).text(
            request.queue_id.as_str(),
        ).texts(&ids, 0, n),
    ) {
        Err(e) => return Err(e),
        Ok(c) => c,
    };
    if changed != n {
        let mut message = "class S lease updated ".to_owned();
        push_u64(&mut message, changed as u64);
        message.append(" rows, expected ");
        push_u64(&mut message, n as u64);
        return Err(EngineError::Storage(message));
    }
    let item_ids_json = match render_texts(&ids) {
        Err(e) => return Err(EngineError::Storage(e)),
        Ok(t) => t,
    };
    match rel_done(
        tx,
        INSERT_CLAIM_OUTBOX,
        Params::new().text(request.tenant_id.as_str()).text(request.queue_id.as_str()).text(
            request.outbox_id.as_str(),
        ).text(item_ids_json.as_str()).text(request.lease_token.as_str()).number(
            request.lease_expires_at,
        ).maybe_text(&request.request_id).maybe_int(request.request_fingerprint).maybe_text(
            &request.worker_id,
        ).text(request.claim_unit.as_str()).maybe_text(&request.cohort_id).number(
            request.now_nanos,
        ),
    ) {
        Err(e) => Err(e),
        Ok(_) => Ok(ClassSClaimResult { items, outbox_id: request.outbox_id.clone() }),
    }
}

} // verus!
