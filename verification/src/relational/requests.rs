//! Outcomes of requests, kept so that a request that comes again is answered the same.

use crate::encoding::{be_bytes, be_u64};
use crate::relational::codec::{coded, command_positions_json, id_strings, id_texts, ids_json, later_by, millis_later, lists_view, nanos, object_json, options_view, positions_json, render_ids, render_object, ts_nanos};
use crate::relational::cohorts::Queues;
use crate::relational::exec::{RelSession, RelTx, rel_done, rel_exec, text_outcome};
use crate::relational::query::{own, own_params};
use crate::relational::script::{Script, chain, done, group_talk, held, lemma_start, run};
use crate::relational::value::CellV;
use crate::text::{clone_bytes, opt_text};
use crate::types::{CommandEnvelope, CommandPosition, EngineError, EngineResult, ErrorV, ItemId, QueueCommand, QueueDefinition, QueueKey, QueueV, RequestOutcome, ResponseText, UtcTimestamp, outcome};
use vstd::prelude::*;
use vstd::string::*;

verus! {

broadcast use group_talk;

pub const IDEMPOTENCY_OPERATION_CLAIM_BY_QUERY: &'static str = "claim_by_query";

pub const IDEMPOTENCY_OPERATION_PUSH: &'static str = "push";

pub const IDEMPOTENCY_OPERATION_BATCH_UPDATE: &'static str = "batch_update";

pub const IDEMPOTENCY_OPERATION_ITEM_MUTATION: &'static str = "item_mutation";

pub const IDEMPOTENCY_OPERATION_COMMIT: &'static str = "commit";

/// Keep an outcome. One that is kept already only lives longer, and only if it is the same.
pub const INSERT_OR_EXTEND_REQUEST: &'static str = "INSERT INTO fireweed_request_idempotency \
             (tenant_id,queue_id,operation,request_id,request_fingerprint,response_payload,\
              command_positions,expires_at,created_at) \
             VALUES (?,?,?,?,?,?,?,?,?) ON CONFLICT(tenant_id,queue_id,operation,request_id) DO UPDATE SET \
         expires_at=max(fireweed_request_idempotency.expires_at,excluded.expires_at) \
         WHERE fireweed_request_idempotency.request_fingerprint=excluded.request_fingerprint \
           AND fireweed_request_idempotency.response_payload=excluded.response_payload";

/// Keep an outcome. One that is kept already gives way if it has lapsed or is the same.
pub const INSERT_OR_REPLACE_REQUEST: &'static str = "INSERT INTO fireweed_request_idempotency \
             (tenant_id,queue_id,operation,request_id,request_fingerprint,response_payload,\
              command_positions,expires_at,created_at) \
             VALUES (?,?,?,?,?,?,?,?,?) ON CONFLICT(tenant_id,queue_id,operation,request_id) DO UPDATE SET \
         request_fingerprint=excluded.request_fingerprint,response_payload=excluded.response_payload,\
         command_positions=excluded.command_positions,expires_at=excluded.expires_at,\
         created_at=excluded.created_at \
         WHERE fireweed_request_idempotency.expires_at<=excluded.created_at OR \
          (fireweed_request_idempotency.request_fingerprint=excluded.request_fingerprint \
           AND fireweed_request_idempotency.response_payload=excluded.response_payload)";

pub const INSERT_REPLAY_ITEMS: &'static str = "INSERT OR IGNORE INTO fireweed_claim_replay_items \
             (tenant_id,queue_id,request_id,item_id) \
             SELECT ?,?,?,value FROM json_each(?)";

pub const EXTEND_CLAIMS_FOR_RENEWAL: &'static str = "UPDATE fireweed_request_idempotency SET expires_at=max(expires_at,?4) \
         WHERE tenant_id=?1 AND queue_id=?2 AND operation=?3 AND request_id IN ( \
           SELECT edge.request_id FROM fireweed_claim_replay_items edge \
           JOIN json_each(?5) renewed ON renewed.value=edge.item_id \
           WHERE edge.tenant_id=?1 AND edge.queue_id=?2 GROUP BY edge.request_id \
           HAVING COUNT(*)=(SELECT COUNT(*) FROM fireweed_claim_replay_items all_edges \
             WHERE all_edges.tenant_id=?1 AND all_edges.queue_id=?2 \
               AND all_edges.request_id=edge.request_id))";

/// Until when the outcome of a request is kept.
pub open spec fn request_kept(
    queues: Map<QueueV, QueueDefinition>,
    q: QueueV,
    now: UtcTimestamp,
) -> Result<i64, ErrorV> {
    if queues.contains_key(q) {
        Ok(millis_later(nanos(now), queues[q].request_id_retention_ms))
    } else {
        Err(ErrorV::NotFound)
    }
}

fn request_expires_at(queues: &Queues, shard: &QueueKey, now: UtcTimestamp) -> (r: EngineResult<
    i64,
>)
    ensures
        outcome(r) == request_kept(queues@, shard@, now),
{
    match queues.get(shard) {
        None => Err(EngineError::NotFound),
        Some(d) => Ok(later_by(ts_nanos(now), d.request_id_retention_ms)),
    }
}

/// What is kept of a request.
pub struct RequestRow<'a> {
    pub operation: &'static str,
    pub request_id: &'a str,
    pub fingerprint: Vec<u8>,
    pub response_payload: String,
    pub position: &'a CommandPosition,
    pub created_at: UtcTimestamp,
    pub expires_at: i64,
    /// An outcome that is kept already may only be extended.
    pub extend_only: bool,
}

pub ghost struct RequestV {
    pub operation: Seq<char>,
    pub request_id: Seq<char>,
    pub fingerprint: Seq<u8>,
    pub response: Seq<char>,
    pub epoch: u64,
    pub sequence: u64,
    pub created_at: UtcTimestamp,
    pub expires_at: i64,
    pub extend_only: bool,
}

impl<'a> RequestRow<'a> {
    pub open spec fn view(&self) -> RequestV {
        RequestV {
            operation: self.operation@,
            request_id: self.request_id@,
            fingerprint: self.fingerprint@,
            response: self.response_payload@,
            epoch: self.position.backend_epoch,
            sequence: self.position.sequence,
            created_at: self.created_at,
            expires_at: self.expires_at,
            extend_only: self.extend_only,
        }
    }
}

/// An outcome is kept. Where another is kept under the same request, that is a conflict.
pub open spec fn keeps_request(q: QueueV, r: RequestV) -> Script<Result<(), ErrorV>> {
    chain(
        run(
            if r.extend_only {
                INSERT_OR_EXTEND_REQUEST@
            } else {
                INSERT_OR_REPLACE_REQUEST@
            },
            own(q).push(CellV::Text(r.operation)).push(CellV::Text(r.request_id)).push(
                CellV::Blob(r.fingerprint),
            ).push(CellV::Text(r.response)).push(
                CellV::Text(positions_json(r.epoch, r.sequence)),
            ).push(CellV::Integer(r.expires_at)).push(CellV::Integer(nanos(r.created_at))),
        ),
        |affected: usize|
            Script::Done(
                if affected == 0 {
                    Err::<(), ErrorV>(ErrorV::RequestIdConflict)
                } else {
                    Ok(())
                },
            ),
    )
}

fn persist_request_row<T: RelTx>(tx: &mut RelSession<T>, shard: &QueueKey, row: &RequestRow) -> (r:
    EngineResult<()>)
    ensures
        held(old(tx).trace(), final(tx).trace(), keeps_request(shard@, row@), outcome(r)),
{
    proof {
        lemma_start(tx.trace(), keeps_request(shard@, row@));
    }
    let sql = if row.extend_only {
        INSERT_OR_EXTEND_REQUEST
    } else {
        INSERT_OR_REPLACE_REQUEST
    };
    let positions = match command_positions_json(row.position) {
        Err(e) => return Err(e),
        Ok(t) => t,
    };
    match rel_exec(
        tx,
        sql,
        own_params(shard).text(row.operation).text(row.request_id).blob(&row.fingerprint).text(
            row.response_payload.as_str(),
        ).text(positions.as_str()).number(row.expires_at).number(ts_nanos(row.created_at)),
    ) {
        Err(e) => Err(e),
        Ok(affected) => if affected == 0 {
            Err(EngineError::RequestIdConflict)
        } else {
            Ok(())
        },
    }
}

/// A response that is stored as it came, if it can be read.
pub open spec fn keeps_response(
    queues: Map<QueueV, QueueDefinition>,
    q: QueueV,
    operation: Seq<char>,
    e: CommandEnvelope,
    p: CommandPosition,
    response: ResponseText,
) -> Script<Result<(), ErrorV>> {
    match response.fault {
        Some(t) => Script::Done(Err(ErrorV::Storage(t@))),
        None => match request_kept(queues, q, e.created_at) {
            Err(x) => Script::Done(Err(x)),
            Ok(expires_at) => keeps_request(
                q,
                RequestV {
                    operation,
                    request_id: e.request_id->Some_0@,
                    fingerprint: be_bytes(e.request_fingerprint->Some_0 as nat, 8),
                    response: response.text@,
                    epoch: p.backend_epoch,
                    sequence: p.sequence,
                    created_at: e.created_at,
                    expires_at,
                    extend_only: false,
                },
            ),
        },
    }
}

/// Until when a claim is answered the same: as long as its lease runs.
pub open spec fn claim_runs_until(e: CommandEnvelope) -> UtcTimestamp {
    match e.command {
        QueueCommand::Claim(c) => c.lease_expires_at,
        QueueCommand::CohortClaim(c) => c.lease_expires_at,
        _ => e.created_at,
    }
}

/// The text that a claim by query is answered with.
pub open spec fn claim_answer(ids: Seq<ItemId>, token: Seq<char>, worker: Option<Seq<char>>) -> Result<
    Seq<char>,
    ErrorV,
> {
    coded(
        object_json(
            seq![("item_ids"@, id_texts(ids))],
            seq![("lease_token"@, Some(token)), ("worker_id"@, worker)],
        ),
    )
}

/// The outcome of a claim by query is kept, with the items that it must renew together.
pub open spec fn keeps_claim(
    q: QueueV,
    e: CommandEnvelope,
    p: CommandPosition,
    ids: Seq<ItemId>,
    token: Seq<char>,
    worker: Option<Seq<char>>,
) -> Script<Result<(), ErrorV>> {
    match claim_answer(ids, token, worker) {
        Err(x) => Script::Done(Err(x)),
        Ok(response) => chain(
            keeps_request(
                q,
                RequestV {
                    operation: IDEMPOTENCY_OPERATION_CLAIM_BY_QUERY@,
                    request_id: e.request_id->Some_0@,
                    fingerprint: be_bytes(e.request_fingerprint->Some_0 as nat, 8),
                    response,
                    epoch: p.backend_epoch,
                    sequence: p.sequence,
                    created_at: e.created_at,
                    expires_at: nanos(claim_runs_until(e)),
                    extend_only: true,
                },
            ),
            |u: ()|
                match ids_json(ids) {
                    Err(x) => Script::Done(Err::<(), ErrorV>(x)),
                    Ok(list) => done(
                        INSERT_REPLAY_ITEMS@,
                        own(q).push(CellV::Text(e.request_id->Some_0@)).push(CellV::Text(list)),
                    ),
                },
        ),
    }
}

/// The outcome of a push is kept under the fingerprint of what was pushed.
pub open spec fn keeps_push(
    queues: Map<QueueV, QueueDefinition>,
    q: QueueV,
    e: CommandEnvelope,
    p: CommandPosition,
    ids: Seq<ItemId>,
    fingerprint: Result<Vec<u8>, String>,
) -> Script<Result<(), ErrorV>> {
    match ids_json(ids) {
        Err(x) => Script::Done(Err(x)),
        Ok(response) => match fingerprint {
            Err(t) => Script::Done(Err(ErrorV::Storage(t@))),
            Ok(print) => match request_kept(queues, q, e.created_at) {
                Err(x) => Script::Done(Err(x)),
                Ok(expires_at) => keeps_request(
                    q,
                    RequestV {
                        operation: IDEMPOTENCY_OPERATION_PUSH@,
                        request_id: e.request_id->Some_0@,
                        fingerprint: print@,
                        response,
                        epoch: p.backend_epoch,
                        sequence: p.sequence,
                        created_at: e.created_at,
                        expires_at,
                        extend_only: false,
                    },
                ),
            },
        },
    }
}

/// The outcome of a command's request is kept, where it has one. The outcome of a push counts only
/// with a push.
pub open spec fn keeps_outcome(
    queues: Map<QueueV, QueueDefinition>,
    q: QueueV,
    e: CommandEnvelope,
    p: CommandPosition,
) -> Script<Result<(), ErrorV>> {
    if e.request_id is None || e.request_fingerprint is None {
        Script::Done(Ok(()))
    } else {
        match e.request_outcome {
            None => Script::Done(Ok(())),
            Some(RequestOutcome::ItemMutation(t)) => keeps_response(
                queues,
                q,
                IDEMPOTENCY_OPERATION_ITEM_MUTATION@,
                e,
                p,
                t,
            ),
            Some(RequestOutcome::BatchUpdate(t)) => keeps_response(
                queues,
                q,
                IDEMPOTENCY_OPERATION_BATCH_UPDATE@,
                e,
                p,
                t,
            ),
            Some(RequestOutcome::CommitTransition(t)) => keeps_response(
                queues,
                q,
                IDEMPOTENCY_OPERATION_COMMIT@,
                e,
                p,
                t,
            ),
            Some(RequestOutcome::ClaimByQuery { item_ids, lease_token, worker_id }) => keeps_claim(
                q,
                e,
                p,
                item_ids@,
                lease_token@,
                opt_text(worker_id),
            ),
            Some(RequestOutcome::Push { item_ids, fingerprint }) => if e.command is Push {
                keeps_push(queues, q, e, p, item_ids@, fingerprint)
            } else {
                Script::Done(Ok(()))
            },
        }
    }
}

fn persist_response<T: RelTx>(
    tx: &mut RelSession<T>,
    queues: &Queues,
    shard: &QueueKey,
    operation: &'static str,
    envelope: &CommandEnvelope,
    request_id: &String,
    fingerprint: u64,
    position: &CommandPosition,
    response: &ResponseText,
) -> (r: EngineResult<()>)
    requires
        envelope.request_id == Some(*request_id),
        envelope.request_fingerprint == Some(fingerprint),
    ensures
        held(
            old(tx).trace(),
            final(tx).trace(),
            keeps_response(queues@, shard@, operation@, *envelope, *position, *response),
            outcome(r),
        ),
{
    proof {
        lemma_start(
            tx.trace(),
            keeps_response(queues@, shard@, operation@, *envelope, *position, *response),
        );
    }
    match &response.fault {
        Some(t) => return Err(EngineError::Storage(t.clone())),
        None => {},
    }
    let expires_at = match request_expires_at(queues, shard, envelope.created_at) {
        Err(e) => return Err(e),
        Ok(v) => v,
    };
    persist_request_row(
        tx,
        shard,
        &RequestRow {
            operation,
            request_id: request_id.as_str(),
            fingerprint: be_u64(fingerprint),
            response_payload: response.text.clone(),
            position,
            created_at: envelope.created_at,
            expires_at,
            extend_only: false,
        },
    )
}

fn answer_of(ids: &Vec<ItemId>, token: &String, worker: &Option<String>) -> (r: EngineResult<String>)
    ensures
        text_outcome(r) == claim_answer(ids@, token@, opt_text(*worker)),
{
    let lists: Vec<(String, Vec<String>)> = vec![("item_ids".to_owned(), id_strings(ids))];
    let options: Vec<(String, Option<String>)> = vec![
        ("lease_token".to_owned(), Some(token.clone())),
        ("worker_id".to_owned(), worker.clone()),
    ];
    proof {
        reveal_strlit("item_ids");
        reveal_strlit("lease_token");
        reveal_strlit("worker_id");
        assert("lease_token"@[0] != "worker_id"@[0]);
        assert(lists_view(lists@) =~= seq![("item_ids"@, id_texts(ids@))]);
        assert(options_view(options@) =~= seq![
            ("lease_token"@, Some(token@)),
            ("worker_id"@, opt_text(*worker)),
        ]);
    }
    match render_object(lists, options) {
        Ok(t) => Ok(t),
        Err(e) => Err(EngineError::Storage(e)),
    }
}

fn persist_claim<T: RelTx>(
    tx: &mut RelSession<T>,
    shard: &QueueKey,
    envelope: &CommandEnvelope,
    request_id: &String,
    fingerprint: u64,
    position: &CommandPosition,
    item_ids: &Vec<ItemId>,
    lease_token: &String,
    worker_id: &Option<String>,
) -> (r: EngineResult<()>)
    requires
        envelope.request_id == Some(*request_id),
        envelope.request_fingerprint == Some(fingerprint),
    ensures
        held(
            old(tx).trace(),
            final(tx).trace(),
            keeps_claim(
                shard@,
                *envelope,
                *position,
                item_ids@,
                lease_token@,
                opt_text(*worker_id),
            ),
            outcome(r),
        ),
{
    proof {
        lemma_start(
            tx.trace(),
            keeps_claim(
                shard@,
                *envelope,
                *position,
                item_ids@,
                lease_token@,
                opt_text(*worker_id),
            ),
        );
    }
    let response = match answer_of(item_ids, lease_token, worker_id) {
        Err(e) => return Err(e),
        Ok(t) => t,
    };
    let until = match &envelope.command {
        QueueCommand::Claim(c) => c.lease_expires_at,
        QueueCommand::CohortClaim(c) => c.lease_expires_at,
        _ => envelope.created_at,
    };
    match persist_request_row(
        tx,
        shard,
        &RequestRow {
            operation: IDEMPOTENCY_OPERATION_CLAIM_BY_QUERY,
            request_id: request_id.as_str(),
            fingerprint: be_u64(fingerprint),
            response_payload: response,
            position,
            created_at: envelope.created_at,
            expires_at: ts_nanos(until),
            extend_only: true,
        },
    ) {
        Err(e) => return Err(e),
        Ok(_) => {},
    }
    let ids = match render_ids(item_ids) {
        Err(e) => return Err(e),
        Ok(t) => t,
    };
    rel_done(
        tx,
        INSERT_REPLAY_ITEMS,
        own_params(shard).text(request_id.as_str()).text(ids.as_str()),
    )
}

fn persist_push<T: RelTx>(
    tx: &mut RelSession<T>,
    queues: &Queues,
    shard: &QueueKey,
    envelope: &CommandEnvelope,
    request_id: &String,
    position: &CommandPosition,
    item_ids: &Vec<ItemId>,
    fingerprint: &Result<Vec<u8>, String>,
) -> (r: EngineResult<()>)
    requires
        envelope.request_id == Some(*request_id),
    ensures
        held(
            old(tx).trace(),
            final(tx).trace(),
            keeps_push(queues@, shard@, *envelope, *position, item_ids@, *fingerprint),
            outcome(r),
        ),
{
    proof {
        lemma_start(
            tx.trace(),
            keeps_push(queues@, shard@, *envelope, *position, item_ids@, *fingerprint),
        );
    }
    let response_payload = match render_ids(item_ids) {
        Err(e) => return Err(e),
        Ok(t) => t,
    };
    let print = match fingerprint {
        Err(t) => return Err(EngineError::Storage(t.clone())),
        Ok(b) => clone_bytes(b),
    };
    let expires_at = match request_expires_at(queues, shard, envelope.created_at) {
        Err(e) => return Err(e),
        Ok(v) => v,
    };
    persist_request_row(
        tx,
        shard,
        &RequestRow {
            operation: IDEMPOTENCY_OPERATION_PUSH,
            request_id: request_id.as_str(),
            fingerprint: print,
            response_payload,
            position,
            created_at: envelope.created_at,
            expires_at,
            extend_only: false,
        },
    )
}

/// Keeps the outcome of a command's request, where it has one, in the transaction that applies it.
pub fn persist_request_outcome_sql<T: RelTx>(
    tx: &mut RelSession<T>,
    queues: &Queues,
    shard: &QueueKey,
    envelope: &CommandEnvelope,
    position: &CommandPosition,
) -> (r: EngineResult<()>)
    ensures
        held(
            old(tx).trace(),
            final(tx).trace(),
            keeps_outcome(queues@, shard@, *envelope, *position),
            outcome(r),
        ),
{
    proof {
        lemma_start(tx.trace(), keeps_outcome(queues@, shard@, *envelope, *position));
    }
    let request_id = match &envelope.request_id {
        None => return Ok(()),
        Some(t) => t,
    };
    let fingerprint = match envelope.request_fingerprint {
        None => return Ok(()),
        Some(v) => v,
    };
    match &envelope.request_outcome {
        None => Ok(()),
        Some(RequestOutcome::ItemMutation(t)) => persist_response(
            tx,
            queues,
            shard,
            IDEMPOTENCY_OPERATION_ITEM_MUTATION,
            envelope,
            request_id,
            fingerprint,
            position,
            t,
        ),
        Some(RequestOutcome::BatchUpdate(t)) => persist_response(
            tx,
            queues,
            shard,
            IDEMPOTENCY_OPERATION_BATCH_UPDATE,
            envelope,
            request_id,
            fingerprint,
            position,
            t,
        ),
        Some(RequestOutcome::CommitTransition(t)) => persist_response(
            tx,
            queues,
            shard,
            IDEMPOTENCY_OPERATION_COMMIT,
            envelope,
            request_id,
            fingerprint,
            position,
            t,
        ),
        Some(RequestOutcome::ClaimByQuery { item_ids, lease_token, worker_id }) => persist_claim(
            tx,
            shard,
            envelope,
            request_id,
            fingerprint,
            position,
            item_ids,
            lease_token,
            worker_id,
        ),
        Some(RequestOutcome::Push { item_ids, fingerprint: print }) => match &envelope.command {
            QueueCommand::Push(_) => persist_push(
                tx,
                queues,
                shard,
                envelope,
                request_id,
                position,
                item_ids,
                print,
            ),
            _ => Ok(()),
        },
    }
}

/// The kept claims whose items are all renewed live as long as the lease.
pub open spec fn extends_claims(q: QueueV, ids: Seq<ItemId>, until: UtcTimestamp) -> Script<
    Result<(), ErrorV>,
> {
    if ids.len() == 0 {
        Script::Done(Ok(()))
    } else {
        match ids_json(ids) {
            Err(e) => Script::Done(Err(e)),
            Ok(list) => done(
                EXTEND_CLAIMS_FOR_RENEWAL@,
                own(q).push(CellV::Text(IDEMPOTENCY_OPERATION_CLAIM_BY_QUERY@)).push(
                    CellV::Integer(nanos(until)),
                ).push(CellV::Text(list)),
            ),
        }
    }
}

pub fn extend_claim_by_query_idempotency_for_renewal<T: RelTx>(
    tx: &mut RelSession<T>,
    shard: &QueueKey,
    renewed_item_ids: &Vec<ItemId>,
    renewed_expires_at: UtcTimestamp,
) -> (r: EngineResult<()>)
    ensures
        held(
            old(tx).trace(),
            final(tx).trace(),
            extends_claims(shard@, renewed_item_ids@, renewed_expires_at),
            outcome(r),
        ),
{
    proof {
        lemma_start(
            tx.trace(),
            extends_claims(shard@, renewed_item_ids@, renewed_expires_at),
        );
    }
    if renewed_item_ids.len() == 0 {
        return Ok(());
    }
    let renewed = match render_ids(renewed_item_ids) {
        Err(e) => return Err(e),
        Ok(t) => t,
    };
    rel_done(
        tx,
        EXTEND_CLAIMS_FOR_RENEWAL,
        own_params(shard).text(IDEMPOTENCY_OPERATION_CLAIM_BY_QUERY).number(
            ts_nanos(renewed_expires_at),
        ).text(renewed.as_str()),
    )
}

} // verus!
