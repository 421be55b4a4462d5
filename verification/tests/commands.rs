use bytes::Bytes;
use fireweed::claims::ClaimCompatibility;
use fireweed::json::Json;
use fireweed::order::OrdMap;
use fireweed::relational::codec::{
    command_positions_json, elig_sort, fields_from_json, fields_to_json, lease_hash, parse_item, parse_state,
    render_ids, state_str, ts_nanos,
};
use fireweed::relational::cohorts::{cohort_expiry_deadline, Queues};
use fireweed::relational::command::apply_command_sql;
use fireweed::relational::commit::{apply_committed_batch_sql, SELECT_NEXT_SEQUENCE};
use fireweed::relational::exec::{RelCodec, RelSession, RelTx};
use fireweed::relational::indexes::insert_typed_index_rows;
use fireweed::relational::insert::advance_id_high_water_sql;
use fireweed::relational::leases::reap_terminal_items_sql;
use fireweed::relational::lists::{list_sql, values_sql};
use fireweed::relational::memory::{DriverMemory, TokenOp};
use fireweed::relational::requests::persist_request_outcome_sql;
use fireweed::relational::query::{filter_item_claim_candidates, select_eligible_sql_with_scan_hint};
use fireweed::relational::summary::{write_from_items, GroupItemRef};
use fireweed::relational::tokens::{apply_token_ops, LiveTokens};
use fireweed::relational::value::{RelRow, RelValue};
use fireweed::sql::async_projection::{SELECT_HAS_BLOCKED_GATES, SELECT_NEXT_ITEM_SEQUENCE, SELECT_QUEUE_PAUSED};
use fireweed::types::{
    ClaimCommand, CommandEnvelope, CommandPosition, EligibilityPolicy, EngineError, EngineResult, FieldMap,
    FinalizeKind, FinalizeOutcome, GateKeyPolicy, IndexFields, ItemState, Metadata, OrderingMode,
    PriorityDirection, PriorityModel, PriorityModelKind, PriorityValue, PushItem, QueueCommand, QueueDefinition,
    QueueKey, RecurrenceMode, RecurrencePolicy, RequestOutcome, ResponseText, UtcTimestamp,
};
use sha2::{Digest, Sha256};
use std::cell::RefCell;
use std::sync::Arc;

/// A store that keeps what it is told and answers from a list.
struct Tape {
    told: RefCell<Vec<(String, Vec<RelValue>)>>,
    answers: Vec<(String, Vec<Vec<RelValue>>)>,
}

impl Tape {
    fn new(answers: Vec<(&str, Vec<Vec<RelValue>>)>) -> Tape {
        Tape {
            told: RefCell::new(Vec::new()),
            answers: answers.into_iter().map(|(s, r)| (s.to_string(), r)).collect(),
        }
    }

    fn told_with(&self, prefix: &str) -> usize {
        self.told.borrow().iter().filter(|(s, _)| s.starts_with(prefix)).count()
    }

    fn bound(&self, prefix: &str) -> Vec<RelValue> {
        self.told
            .borrow()
            .iter()
            .find(|(s, _)| s.starts_with(prefix))
            .map(|(_, p)| p.iter().map(|v| v.duplicate()).collect())
            .unwrap()
    }
}

impl RelTx for Tape {
    fn execute(&self, sql: &str, params: &Vec<RelValue>) -> EngineResult<usize> {
        self.told.borrow_mut().push((sql.to_string(), params.iter().map(|v| v.duplicate()).collect()));
        Ok(1)
    }

    fn query(&self, sql: &str, _params: &Vec<RelValue>) -> EngineResult<Vec<RelRow>> {
        Ok(self
            .answers
            .iter()
            .find(|(s, _)| sql.starts_with(s.as_str()))
            .map(|(_, rows)| rows.iter().map(|r| RelRow(r.iter().map(|v| v.duplicate()).collect())).collect())
            .unwrap_or_default())
    }
}

impl RelCodec for Tape {
    fn metadata_text(&self, _metadata: &Metadata) -> EngineResult<String> {
        Ok("{}".to_string())
    }

    fn document_text(&self, _document: &Json) -> EngineResult<String> {
        Ok("{}".to_string())
    }

    fn priority_text(&self, _priority: &PriorityValue) -> EngineResult<String> {
        Ok("7".to_string())
    }

    fn priority_of(&self, _text: &str) -> EngineResult<PriorityValue> {
        Ok(PriorityValue::Int64(7))
    }
}

fn shard() -> QueueKey {
    QueueKey { tenant_id: "t1".to_string(), queue_id: "q1".to_string() }
}

fn ts(s: i64) -> UtcTimestamp {
    UtcTimestamp { seconds: s, nanoseconds: 0 }
}

fn model(direction: PriorityDirection) -> PriorityModel {
    PriorityModel { kind: PriorityModelKind::Int64, direction }
}

fn queues() -> Queues {
    let mut q: Queues = OrdMap::new();
    q.insert(
        shard(),
        QueueDefinition {
            priority_model: model(PriorityDirection::Ascending),
            ordering_mode: OrderingMode::Strict,
            max_rank_error: 0,
            recurrence: RecurrencePolicy { mode: RecurrenceMode::Oneshot, until: None },
            eligibility_policy: EligibilityPolicy {
                gate_keys: GateKeyPolicy::Disabled,
                max_gate_keys_per_item: None,
                max_gates_per_request: None,
            },
            cohort_completion_bound_ms: None,
            request_id_retention_ms: 60_000,
            client_item_key_retention_ms: 60_000,
            terminal_retention_ms: 60_000,
            secondary_indexes: vec![],
            typed_indexes: vec![],
        },
    );
    q
}

fn at(sequence: u64) -> CommandPosition {
    CommandPosition { queue: shard(), backend_epoch: 3, sequence }
}

fn envelope(command: QueueCommand) -> CommandEnvelope {
    CommandEnvelope {
        command_id: "c".to_string(),
        request_id: None,
        request_fingerprint: None,
        request_outcome: None,
        command,
        created_at: ts(10),
    }
}

fn item(id: u64, payload: Option<&'static [u8]>) -> PushItem {
    PushItem {
        client_item_key: id.to_string(),
        item_id: id,
        priority: None,
        not_before: None,
        group_key: None,
        max_attempts: 1,
        payload: payload.map(Bytes::from_static),
        fields: Arc::new(FieldMap::new()),
        metadata: Arc::new(Metadata::new()),
        cohort_size: None,
        gate_keys: Arc::new(vec![]),
        entity_document: None,
        index_fields: Arc::new(IndexFields { empty: true, stored: Ok(None), keys: Ok(vec![]) }),
    }
}

fn waits_for(next: i64) -> Vec<(&'static str, Vec<Vec<RelValue>>)> {
    vec![(SELECT_NEXT_SEQUENCE, vec![vec![RelValue::Integer(next)]])]
}

#[test]
fn a_batch_in_its_turn_is_told_and_moves_the_cursor() {
    let tape = Tape::new(waits_for(4));
    let mut session = RelSession::new(&tape);
    let mut memory = DriverMemory::new();
    let r = apply_committed_batch_sql(
        &mut session,
        &queues(),
        &mut memory,
        &vec![at(4), at(5)],
        &vec![envelope(QueueCommand::PauseQueue(true)), envelope(QueueCommand::ResumeQueue)],
    );
    assert!(matches!(r, Ok(false)));
    let told = tape.told.borrow();
    assert_eq!(told.len(), 3);
    assert_eq!(
        told[0].1,
        vec![
            RelValue::Text("t1".to_string()),
            RelValue::Text("q1".to_string()),
            RelValue::Integer(1),
        ]
    );
    assert!(told[2].0.starts_with("UPDATE relational_cursor SET"));
    assert_eq!(
        told[2].1,
        vec![
            RelValue::Text("t1".to_string()),
            RelValue::Text("q1".to_string()),
            RelValue::Integer(6),
            RelValue::Integer(3),
        ]
    );
}

#[test]
fn a_batch_that_was_told_before_is_passed_over() {
    let tape = Tape::new(waits_for(6));
    let mut session = RelSession::new(&tape);
    let mut memory = DriverMemory::new();
    let claim = QueueCommand::Claim(ClaimCommand {
        item_ids: vec![7],
        lease_token: "lease".to_string(),
        lease_expires_at: ts(50),
        worker_id: None,
    });
    let r = apply_committed_batch_sql(
        &mut session,
        &queues(),
        &mut memory,
        &vec![at(4), at(5)],
        &vec![envelope(QueueCommand::PauseQueue(true)), envelope(claim)],
    );
    assert!(matches!(r, Ok(false)));
    let told = tape.told.borrow();
    assert_eq!(told.len(), 1);
    assert!(told[0].0.starts_with("UPDATE relational_cursor SET"));
    assert_eq!(
        told[0].1,
        vec![
            RelValue::Text("t1".to_string()),
            RelValue::Text("q1".to_string()),
            RelValue::Integer(6),
            RelValue::Integer(0),
        ]
    );
    assert_eq!(memory.token_ops.len(), 1);
    assert!(matches!(&memory.token_ops[0], TokenOp::Give(q, 7, t) if q.queue_id == "q1" && t == "lease"));
}

#[test]
fn stored_series_end_at_their_end() {
    for (next, state) in [(50, "Pending"), (51, "Complete")] {
        let mut q = queues();
        let mut definition = q.take(&shard()).unwrap();
        definition.recurrence = RecurrencePolicy { mode: RecurrenceMode::Recurring, until: Some(ts(50)) };
        q.insert(shard(), definition);
        let tape = Tape::new(vec![]);
        let mut session = RelSession::new(&tape);
        let rearm = FinalizeOutcome { not_before: Some(ts(next)), ..FinalizeOutcome::new(7, FinalizeKind::Rearm) };
        let r = apply_command_sql(
            &mut session,
            &q,
            &mut DriverMemory::new(),
            &shard(),
            &at(4),
            4,
            ts(10),
            &QueueCommand::Finalize(vec![rearm]),
        );
        assert!(r.is_ok());
        let bound = tape.bound("UPDATE fireweed_items SET lifecycle_state=?");
        assert_eq!(bound[0], RelValue::Text(state.to_string()));
        let ended = bound.contains(&RelValue::Integer(10_000_000_000)) && bound.contains(&RelValue::Integer(3));
        assert_eq!(ended && bound[2] == RelValue::Integer(10_000_000_000), state == "Complete");
        let again = tape.told_with("UPDATE fireweed_items SET not_before=?");
        assert_eq!(again, if state == "Complete" { 0 } else { 1 });
    }
}

#[test]
fn index_rows_that_stand_are_kept() {
    let tape = Tape::new(vec![]);
    let mut session = RelSession::new(&tape);
    let keys = vec![("by_size".to_string(), vec![1u8, 2])];
    assert!(insert_typed_index_rows(&mut session, &shard(), "7", &keys).is_ok());
    assert_eq!(
        tape.told.borrow()[0].0,
        "INSERT INTO fireweed_item_index (tenant_id,queue_id,index_name,index_key,item_id) \
         VALUES (?,?,?,?,?) ON CONFLICT DO NOTHING"
    );
}

#[test]
fn answers_to_requests_are_kept_as_texts() {
    let keep = |outcome: RequestOutcome| -> Vec<RelValue> {
        let tape = Tape::new(vec![]);
        let mut session = RelSession::new(&tape);
        let mut e = envelope(QueueCommand::ResumeQueue);
        e.request_id = Some("r".to_string());
        e.request_fingerprint = Some(1);
        e.request_outcome = Some(outcome);
        assert!(persist_request_outcome_sql(&mut session, &queues(), &shard(), &e, &at(4)).is_ok());
        tape.bound("INSERT INTO fireweed_request_idempotency")
    };
    let claimed = |worker_id: Option<String>| RequestOutcome::ClaimByQuery {
        item_ids: vec![7, 8],
        lease_token: "a\"b".to_string(),
        worker_id,
    };
    assert_eq!(
        keep(claimed(None))[5],
        RelValue::Text(
            "{\"item_ids\":[\"7\",\"8\"],\"lease_token\":\"a\\\"b\",\"worker_id\":null}".to_string()
        )
    );
    assert_eq!(
        keep(claimed(Some("w".to_string())))[5],
        RelValue::Text(
            "{\"item_ids\":[\"7\",\"8\"],\"lease_token\":\"a\\\"b\",\"worker_id\":\"w\"}".to_string()
        )
    );
    let entries = ResponseText { text: "[1]".to_string(), fault: None };
    let bound = keep(RequestOutcome::CommitTransition(entries));
    assert_eq!(bound[2], RelValue::Text("commit".to_string()));
    assert_eq!(bound[5], RelValue::Text("[1]".to_string()));

    let tape = Tape::new(vec![]);
    let mut session = RelSession::new(&tape);
    let mut e = envelope(QueueCommand::ResumeQueue);
    e.request_id = Some("r".to_string());
    e.request_fingerprint = Some(1);
    e.request_outcome = Some(RequestOutcome::CommitTransition(ResponseText {
        text: "".to_string(),
        fault: Some("unreadable".to_string()),
    }));
    let r = persist_request_outcome_sql(&mut session, &queues(), &shard(), &e, &at(4));
    assert!(matches!(r, Err(EngineError::Storage(t)) if t == "unreadable"));
    assert!(tape.told.borrow().is_empty());
}

#[test]
fn a_batch_ahead_of_its_turn_is_refused() {
    let tape = Tape::new(waits_for(2));
    let mut session = RelSession::new(&tape);
    let r = apply_committed_batch_sql(
        &mut session,
        &queues(),
        &mut DriverMemory::new(),
        &vec![at(4)],
        &vec![envelope(QueueCommand::ResumeQueue)],
    );
    match r {
        Err(EngineError::Storage(t)) => {
            assert_eq!(t, "relational projection replay gap for t1:q1: expected sequence 2, got 4")
        }
        _ => panic!("expected a gap"),
    }
    assert!(tape.told.borrow().is_empty());
}

#[test]
fn batches_of_unequal_lengths_and_unknown_queues_are_refused() {
    let tape = Tape::new(vec![]);
    let mut session = RelSession::new(&tape);
    let r = apply_committed_batch_sql(&mut session, &queues(), &mut DriverMemory::new(), &vec![at(0)], &vec![]);
    match r {
        Err(EngineError::Storage(t)) => {
            assert_eq!(t, "apply_committed_batch: positions/envelopes length mismatch")
        }
        _ => panic!("expected a refusal"),
    }
    let r = apply_committed_batch_sql(
        &mut session,
        &queues(),
        &mut DriverMemory::new(),
        &vec![at(0)],
        &vec![envelope(QueueCommand::ResumeQueue)],
    );
    assert!(matches!(r, Err(EngineError::NotFound)));
    let none = apply_committed_batch_sql(&mut session, &queues(), &mut DriverMemory::new(), &vec![], &vec![]);
    assert!(matches!(none, Ok(false)));
}

#[test]
fn a_claim_and_its_completion_are_told_as_one() {
    let tape = Tape::new(waits_for(4));
    let mut session = RelSession::new(&tape);
    let mut memory = DriverMemory::new();
    let claim = QueueCommand::Claim(ClaimCommand {
        item_ids: vec![7, 8],
        lease_token: "lease".to_string(),
        lease_expires_at: ts(50),
        worker_id: None,
    });
    let complete = QueueCommand::Finalize(
        [7u64, 8].iter().map(|i| FinalizeOutcome {
                item_id: *i,
                kind: FinalizeKind::Complete,
                applied_state: None,
                not_before: None,
            }).collect(),
    );
    let r = apply_committed_batch_sql(
        &mut session,
        &queues(),
        &mut memory,
        &vec![at(4), at(5)],
        &vec![envelope(claim), envelope(complete)],
    );
    assert!(matches!(r, Ok(false)));
    assert_eq!(tape.told_with("UPDATE fireweed_items SET lifecycle_state='Complete'"), 1);
    assert_eq!(tape.told_with("UPDATE fireweed_items SET lifecycle_state='Leased'"), 0);
}

#[test]
fn pushes_of_plain_items_take_the_short_statement() {
    let tape = Tape::new(vec![(SELECT_NEXT_ITEM_SEQUENCE, vec![vec![RelValue::Integer(30)]])]);
    let mut session = RelSession::new(&tape);
    let mut memory = DriverMemory::new();
    let r = apply_command_sql(
        &mut session,
        &queues(),
        &mut memory,
        &shard(),
        &at(4),
        4,
        ts(10),
        &QueueCommand::Push(vec![item(7, None), item(8, None)]),
    );
    assert!(r.is_ok());
    let told = tape.told.borrow();
    let insert = told.iter().find(|(s, _)| s.starts_with("INSERT INTO fireweed_items")).unwrap();
    assert!(insert.0.contains("'Pending',NULL,X'01',NULL,?,NULL,NULL,NULL,'{}','{}'"));
    assert_eq!(insert.0.matches("'Pending'").count(), 2);
    assert!(insert.1.contains(&RelValue::Text("7".to_string())));
    assert!(insert.1.contains(&RelValue::Text("8".to_string())));
    assert!(insert.1.contains(&RelValue::Integer(31)));
    assert!(told[0].1.contains(&RelValue::Integer(32)));
}

#[test]
fn pushes_of_payloads_bind_their_bytes() {
    let tape = Tape::new(vec![(SELECT_NEXT_ITEM_SEQUENCE, vec![vec![RelValue::Integer(30)]])]);
    let mut session = RelSession::new(&tape);
    let r = apply_command_sql(
        &mut session,
        &queues(),
        &mut DriverMemory::new(),
        &shard(),
        &at(4),
        4,
        ts(10),
        &QueueCommand::Push(vec![item(7, Some(b"abc"))]),
    );
    assert!(r.is_ok());
    assert!(tape.bound("INSERT INTO fireweed_items").contains(&RelValue::Blob(b"abc".to_vec())));
}

#[test]
fn leases_are_stored_by_the_hash_of_their_token() {
    let tape = Tape::new(vec![("SELECT item_id FROM fireweed_items", vec![vec![RelValue::Text("7".to_string())]])]);
    let mut session = RelSession::new(&tape);
    let mut memory = DriverMemory::new();
    let r = apply_command_sql(
        &mut session,
        &queues(),
        &mut memory,
        &shard(),
        &at(4),
        4,
        ts(10),
        &QueueCommand::Claim(ClaimCommand {
            item_ids: vec![7],
            lease_token: "lease".to_string(),
            lease_expires_at: ts(50),
            worker_id: Some("w".to_string()),
        }),
    );
    assert!(r.is_ok());
    let digest = Sha256::digest("lease".as_bytes()).to_vec();
    assert_eq!(lease_hash("lease"), digest);
    let told = tape.told.borrow();
    assert!(told.iter().any(|(_, p)| p.contains(&RelValue::Blob(digest.clone()))));
    assert!(matches!(&memory.token_ops[..], [TokenOp::Give(_, 7, t)] if t == "lease"));
}

#[test]
fn stored_fields_read_back() {
    let mut fields = FieldMap::new();
    fields.insert("b".to_string(), Bytes::from_static(&[1, 255]));
    fields.insert("a".to_string(), Bytes::from_static(&[]));
    let text = fields_to_json(&fields).ok().unwrap();
    assert_eq!(text, "{\"a\":[],\"b\":[1,255]}");
    let back = fields_from_json(&text).ok().unwrap();
    assert_eq!(back.get(&"b".to_string()).unwrap().as_ref(), &[1, 255]);
    assert!(back.get(&"a".to_string()).unwrap().is_empty());
    assert!(matches!(fields_from_json("{\"a\":[256]}"), Err(EngineError::Storage(_))));
    assert!(matches!(fields_from_json("nothing"), Err(EngineError::Storage(_))));
}

#[test]
fn identities_and_positions_are_written_as_arrays() {
    assert_eq!(render_ids(&vec![7, 22]).ok().unwrap(), "[\"7\",\"22\"]");
    assert_eq!(render_ids(&vec![]).ok().unwrap(), "[]");
    assert_eq!(command_positions_json(&at(9)).ok().unwrap(), "[[3,9]]");
}

#[test]
fn states_and_identities_read_back() {
    for s in [
        ItemState::Pending,
        ItemState::Leased,
        ItemState::Complete,
        ItemState::Failed,
    ] {
        assert!(parse_state(state_str(s)).ok().unwrap() == s);
    }
    assert!(matches!(parse_state("Lost"), Err(EngineError::Storage(_))));
    assert_eq!(parse_item("42").ok().unwrap(), 42);
    assert!(matches!(parse_item("4x"), Err(EngineError::Storage(_))));
    assert!(matches!(parse_item(""), Err(EngineError::Storage(_))));
}

#[test]
fn times_saturate_in_nanoseconds() {
    assert_eq!(ts_nanos(UtcTimestamp { seconds: 2, nanoseconds: 5 }), 2_000_000_005);
    assert_eq!(ts_nanos(UtcTimestamp { seconds: -1, nanoseconds: 5 }), -999_999_995);
    assert_eq!(ts_nanos(UtcTimestamp { seconds: i64::MAX, nanoseconds: 0 }), i64::MAX);
}

#[test]
fn sort_columns_order_as_priorities_do() {
    let low = Some(PriorityValue::Int64(-3));
    let high = Some(PriorityValue::Int64(4));
    let up = model(PriorityDirection::Ascending);
    let down = model(PriorityDirection::Descending);
    assert!(elig_sort(&low, &up) < elig_sort(&high, &up));
    assert!(elig_sort(&high, &down) < elig_sort(&low, &down));
    assert_eq!(elig_sort(&None, &up), vec![1]);
    assert!(elig_sort(&high, &up) < elig_sort(&None, &up));
    assert!(elig_sort(&low, &down) < elig_sort(&None, &down));
}

#[test]
fn lists_have_one_mark_per_value() {
    assert_eq!(list_sql("a IN", 3, " AND b"), "a IN (?,?,?) AND b");
    assert_eq!(values_sql("VALUES ", "(?,?)", 2, " END"), "VALUES (?,?),(?,?) END");
}

#[test]
fn reaped_rows_are_deleted_with_their_gates_and_keys() {
    let rows = vec![vec![RelValue::Text("7".to_string())], vec![RelValue::Text("9".to_string())]];
    let tape = Tape::new(vec![("SELECT item_id FROM fireweed_items", rows)]);
    let mut session = RelSession::new(&tape);
    let ids = reap_terminal_items_sql(&mut session, &shard(), ts(100), 60_000, false, None).ok().unwrap();
    assert_eq!(ids, vec![7, 9]);
    assert_eq!(tape.told_with("DELETE FROM fireweed_items"), 1);
    assert_eq!(tape.told_with("DELETE FROM fireweed_item_gates"), 1);

    let empty = Tape::new(vec![]);
    let mut session = RelSession::new(&empty);
    let ids = reap_terminal_items_sql(&mut session, &shard(), ts(100), 60_000, true, None).ok().unwrap();
    assert!(ids.is_empty());
    assert!(empty.told.borrow().is_empty());
}

#[test]
fn the_last_change_of_a_token_counts() {
    let mut live = LiveTokens::new();
    apply_token_ops(
        &mut live,
        &vec![
            TokenOp::Give(shard(), 7, "a".to_string()),
            TokenOp::Give(shard(), 7, "b".to_string()),
            TokenOp::Give(shard(), 8, "a".to_string()),
            TokenOp::Clear(shard(), 8),
        ],
    );
    assert_eq!(live.tokens.get(&(shard(), 7)), Some(&"b".to_string()));
    assert!(live.tokens.get(&(shard(), 8)).is_none());
    assert_eq!(live.by_consumer.len(), 1);
}

#[test]
fn hints_are_dropped_where_they_lead_to_too_few_items() {
    let rows = vec![vec![RelValue::Text("7".to_string())]];
    let tape = Tape::new(vec![
        (SELECT_QUEUE_PAUSED, vec![vec![RelValue::Integer(0)]]),
        (SELECT_HAS_BLOCKED_GATES, vec![vec![RelValue::Integer(0)]]),
        ("SELECT item_id FROM fireweed_items", rows),
    ]);
    let mut session = RelSession::new(&tape);
    let mut memory = DriverMemory::new();
    memory.claim_scan_default_fifo.insert(shard(), true);
    memory.claim_scan_hints.insert(shard(), 40);
    let one = select_eligible_sql_with_scan_hint(&mut session, &mut memory, &shard(), ts(1), 1).ok().unwrap();
    assert_eq!(one, vec![7]);
    assert_eq!(memory.claim_scan_hints.get(&shard()), Some(&40));
    let few = select_eligible_sql_with_scan_hint(&mut session, &mut memory, &shard(), ts(1), 2).ok().unwrap();
    assert_eq!(few, vec![7]);
    assert!(memory.claim_scan_hints.get(&shard()).is_none());
}

#[test]
fn paused_queues_offer_no_candidates() {
    let rows = vec![vec![RelValue::Text("7".to_string())]];
    let compatibility = ClaimCompatibility {
        group_key: Some("g".to_string()),
        metadata_equals: Metadata::new(),
        max_groups: None,
    };
    for (paused, expected) in [(1, vec![]), (0, vec![7])] {
        let tape = Tape::new(vec![
            (SELECT_QUEUE_PAUSED, vec![vec![RelValue::Integer(paused)]]),
            ("SELECT item_id FROM fireweed_items", rows.iter().map(|r| vec![r[0].duplicate()]).collect()),
        ]);
        let mut session = RelSession::new(&tape);
        let found = filter_item_claim_candidates(&mut session, &shard(), &compatibility, ts(1), 5).ok().unwrap();
        assert_eq!(found, expected);
    }
}

#[test]
fn cohorts_run_out_by_when_they_could_first_be_claimed() {
    let q = queues();
    let plain = q.get(&shard()).unwrap();
    assert_eq!(cohort_expiry_deadline(plain, 5, None), None);
    let bounded = QueueDefinition {
        cohort_completion_bound_ms: Some(2),
        secondary_indexes: vec![],
        typed_indexes: vec![],
        ..*plain
    };
    assert_eq!(cohort_expiry_deadline(&bounded, 5, None), Some(2_000_005));
    assert_eq!(cohort_expiry_deadline(&bounded, 5, Some(3)), Some(2_000_003));
    assert_eq!(cohort_expiry_deadline(&bounded, 5, Some(9)), Some(2_000_005));
}

#[test]
fn marks_go_by_the_greatest_item() {
    let tape = Tape::new(vec![]);
    let mut session = RelSession::new(&tape);
    assert!(advance_id_high_water_sql(&mut session, &shard(), &vec![9, 10, 3]).is_ok());
    assert!(advance_id_high_water_sql(&mut session, &shard(), &vec![]).is_ok());
    let told = tape.told.borrow();
    assert_eq!(told.len(), 1);
    assert_eq!(told[0].1[2], RelValue::Text("10".to_string()));
}

#[test]
fn a_gate_that_is_named_twice_is_stored_once() {
    let tape = Tape::new(vec![(SELECT_NEXT_ITEM_SEQUENCE, vec![vec![RelValue::Integer(30)]])]);
    let mut session = RelSession::new(&tape);
    let gated = PushItem { gate_keys: Arc::new(vec!["g".to_string(), "h".to_string(), "g".to_string()]), ..item(7, None) };
    let r = apply_command_sql(
        &mut session,
        &queues(),
        &mut DriverMemory::new(),
        &shard(),
        &at(4),
        4,
        ts(10),
        &QueueCommand::Push(vec![gated]),
    );
    assert!(r.is_ok());
    let bound = tape.bound("INSERT INTO fireweed_item_gates");
    assert_eq!(bound.len(), 8);
    assert_eq!(bound.iter().filter(|v| **v == RelValue::Text("g".to_string())).count(), 1);
}

#[test]
fn statements_name_a_bounded_number_of_items() {
    let tape = Tape::new(vec![]);
    let mut session = RelSession::new(&tape);
    let ids: Vec<u64> = (1..=600).collect();
    let r = apply_command_sql(
        &mut session,
        &queues(),
        &mut DriverMemory::new(),
        &shard(),
        &at(4),
        4,
        ts(10),
        &QueueCommand::FenceLease(ids),
    );
    assert!(r.is_ok());
    let sizes: Vec<usize> = tape.told.borrow().iter().map(|(_, p)| p.len()).collect();
    assert_eq!(sizes, vec![258, 258, 90]);
}

#[test]
fn the_head_of_a_group_is_its_first_item() {
    let member = |id: &str, sort: u8, seq: i64, since: i64| GroupItemRef {
        group_key: "g".to_string(),
        item_id: id.to_string(),
        eligible_since: since,
        priority_sort: vec![sort],
        created_at: 10 + seq,
        created_seq: seq,
    };
    let members = vec![member("1", 1, 5, 40), member("2", 0, 7, 30), member("3", 0, 6, 50)];
    let written = write_from_items("g", &members);
    assert_eq!(written.rep_item_id.as_deref(), Some("3"));
    assert_eq!((written.oldest, written.count, written.rep_created_at), (Some(30), 3, Some(16)));
    let none = write_from_items("g", &vec![]);
    assert_eq!((none.oldest, none.count, none.rep_item_id), (None, 0, None));
}
