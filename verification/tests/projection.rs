use bytes::Bytes;
use fireweed::eligibility::{elig_key, EligRank, EligibilityIndex};
use fireweed::image::{ProjectionImage, ProjectionImageItem};
use fireweed::item::ItemRecord;
use fireweed::json::Json;
use fireweed::log::{commit, LogData};
use fireweed::order::{OrdMap, OrdSet, OrderKey, Standing};
use fireweed::projection::ProjectionData;
use fireweed::terminal::TerminalEmissionMetrics;
use fireweed::types::{
    AdvanceInstanceFenceCommand, ClaimCommand, CohortClaimCommand, CommandEnvelope, CommandPosition,
    EligibilityPolicy, EngineError, Entity, FieldMap, FinalizeKind, FinalizeOutcome, GateKeyPolicy,
    IndexFields, IndexSpec, ItemId, ItemState, Metadata, NotBeforeUpdate, OrderingMode, PayloadUpdate,
    PriorityDirection, PriorityModel, PriorityModelKind, PriorityUpdate, PriorityValue, PurgeItemsCommand,
    PushItem, QueueCommand, QueueDefinition, QueueKey, QueueMetrics, ReassignLeaseCommand,
    RecurrenceMode, RecurrencePolicy, RenewLeaseCommand, ReplacePendingCommand, SideRecord, UpdateFieldsCommand, UtcTimestamp,
};
use std::sync::Arc;

fn shard() -> QueueKey {
    QueueKey { tenant_id: "t1".to_string(), queue_id: "q1".to_string() }
}

fn ts(s: i64) -> UtcTimestamp {
    UtcTimestamp::new(s, 0).unwrap()
}

fn model() -> PriorityModel {
    PriorityModel { kind: PriorityModelKind::Int64, direction: PriorityDirection::Ascending }
}

fn oneshot() -> RecurrencePolicy {
    RecurrencePolicy { mode: RecurrenceMode::Oneshot, until: None }
}

fn qdef() -> QueueDefinition {
    QueueDefinition {
        priority_model: model(),
        ordering_mode: OrderingMode::Strict,
        max_rank_error: 0,
        recurrence: oneshot(),
        eligibility_policy: EligibilityPolicy {
            gate_keys: GateKeyPolicy::Disabled,
            max_gate_keys_per_item: None,
            max_gates_per_request: None,
        },
        cohort_completion_bound_ms: None,
        request_id_retention_ms: 60_000,
        client_item_key_retention_ms: 60_000,
        terminal_retention_ms: 60_000,
        secondary_indexes: vec![IndexSpec {
            name: "by_color".to_string(),
            fields: vec!["color".to_string()],
            unique: false,
        }],
        typed_indexes: vec![],
    }
}

fn projection_of(definition: &QueueDefinition) -> ProjectionData {
    ProjectionData::new(
        definition.priority_model,
        definition.ordering_mode,
        definition.max_rank_error,
        definition.recurrence,
        &definition.secondary_indexes,
    )
}

fn plain_projection(mode: OrderingMode, bound: u32) -> ProjectionData {
    ProjectionData::new(model(), mode, bound, oneshot(), &vec![])
}

fn no_index_fields() -> Arc<IndexFields> {
    Arc::new(IndexFields { empty: true, stored: Ok(None), keys: Ok(vec![]) })
}

fn push_item(id: ItemId, key: &str, priority: i64) -> PushItem {
    PushItem {
        client_item_key: key.to_string(),
        item_id: id,
        priority: Some(PriorityValue::Int64(priority)),
        not_before: None,
        group_key: None,
        max_attempts: 3,
        payload: None,
        fields: Arc::new(OrdMap::new()),
        metadata: Arc::new(OrdMap::new()),
        cohort_size: None,
        gate_keys: Arc::new(vec![]),
        entity_document: None,
        index_fields: no_index_fields(),
    }
}

fn push_item_g(id: ItemId, key: &str, priority: i64, group: &str) -> PushItem {
    PushItem { group_key: Some(group.to_string()), ..push_item(id, key, priority) }
}

fn rich_push_item(id: ItemId, key: &str, priority: i64) -> PushItem {
    let mut fields: FieldMap = OrdMap::new();
    fields.insert("color".to_string(), Bytes::from_static(b"red"));
    let mut metadata: Metadata = OrdMap::new();
    metadata.insert("origin".to_string(), Json::Text("projection-image".to_string()));
    let document = Json::Object(vec![("kind".to_string(), Json::Text("job".to_string()))]);
    PushItem {
        payload: Some(Bytes::from_static(b"payload")),
        fields: Arc::new(fields),
        metadata: Arc::new(metadata),
        gate_keys: Arc::new(vec!["gate-a".to_string()]),
        entity_document: Some(Arc::new(Entity {
            document,
            keys: Ok(vec![]),
            extracted: Ok(IndexFields { empty: true, stored: Ok(None), keys: Ok(vec![]) }),
        })),
        ..push_item(id, key, priority)
    }
}

fn env(command: QueueCommand) -> Arc<CommandEnvelope> {
    Arc::new(CommandEnvelope {
        command_id: "c".to_string(),
        request_id: None,
        request_fingerprint: None,
        request_outcome: None,
        command,
        created_at: ts(0),
    })
}

fn claim(ids: Vec<ItemId>, token: &str, expires: i64) -> QueueCommand {
    QueueCommand::Claim(ClaimCommand {
        item_ids: ids,
        lease_token: token.to_string(),
        lease_expires_at: ts(expires),
        worker_id: None,
    })
}

fn complete(id: ItemId) -> QueueCommand {
    QueueCommand::Finalize(vec![FinalizeOutcome::new(id, FinalizeKind::Complete)])
}

fn apply(p: &mut ProjectionData, command: QueueCommand) {
    assert!(p.apply_command(&command).is_ok());
}

fn commit_one(log: &mut LogData, p: &mut ProjectionData, command: QueueCommand) {
    assert!(commit(log, p, &shard(), env(command), None).is_ok());
}

fn version_of(p: &ProjectionData, id: ItemId) -> u64 {
    p.item_version(id).unwrap()
}

fn none_left() -> QueueMetrics {
    QueueMetrics { pending: 0, leased: 0, complete: 0, failed: 0, resident_terminal_count: 0 }
}

fn record(id: ItemId) -> ItemRecord {
    ItemRecord {
        item_id: id,
        explicit_client_item_key: None,
        priority: None,
        not_before: None,
        eligible_since: ts(0),
        group_key: None,
        cohort_size: None,
        payload: None,
        fields: Arc::new(OrdMap::new()),
        metadata: Arc::new(OrdMap::new()),
        gate_keys: Arc::new(vec![]),
        entity_document: None,
        state: ItemState::Pending,
        item_version: 1,
        attempt_count: 0,
        max_attempts: 3,
        created_seq: 0,
        lease_token: None,
        lease_expires_at: None,
        lease_is_cohort: false,
        worker_id: None,
        fenced: false,
        superseded: false,
        terminal_at: None,
        terminal_position: None,
    }
}

fn terminal_record(id: ItemId, at: UtcTimestamp, position: CommandPosition) -> ItemRecord {
    ItemRecord {
        state: ItemState::Complete,
        item_version: 2,
        terminal_at: Some(at),
        terminal_position: Some(position),
        ..record(id)
    }
}

fn text(b: &Option<Bytes>) -> Option<&[u8]> {
    b.as_deref()
}

#[test]
fn default_client_keys_are_derived_without_by_key_entries() {
    let definition = qdef();
    let mut projection = projection_of(&definition);
    let id: ItemId = (1 << 48) + (7 << 32) + 42;
    let default_key = id.to_string();
    apply(
        &mut projection,
        QueueCommand::Push(vec![PushItem { priority: None, ..push_item(id, &default_key, 0) }]),
    );
    assert_eq!(projection.explicit_keys(), 0);
    assert!(matches!(projection.eligible, EligibilityIndex::Compact(_)));
    assert_eq!(projection.lookup_by_key(&default_key), Some(id));
    let live = projection.live_items_by_key(&vec![default_key.clone()]);
    assert_eq!(live[0].as_ref().unwrap().client_item_key, default_key);

    let image = projection.to_image(None);
    assert_eq!(image.items[0].client_item_key, default_key);
    let restored = ProjectionData::from_image(&definition, &image).ok().unwrap();
    assert_eq!(restored.explicit_keys(), 0);
    assert_eq!(restored.lookup_by_key(&default_key), Some(id));

    apply(&mut projection, QueueCommand::PurgeItems(PurgeItemsCommand { item_ids: vec![id], force: false }));
    assert_eq!(projection.lookup_by_key(&default_key), None);
}

#[test]
fn explicit_client_keys_still_index_and_roundtrip() {
    let definition = qdef();
    let mut projection = projection_of(&definition);
    let key = "campaign-member-42";
    apply(&mut projection, QueueCommand::Push(vec![PushItem { priority: None, ..push_item(42, key, 0) }]));
    assert_eq!(projection.explicit_keys(), 1);
    assert_eq!(projection.lookup_by_key(key), Some(42));
    let image = projection.to_image(None);
    let restored = ProjectionData::from_image(&definition, &image).ok().unwrap();
    assert_eq!(restored.explicit_keys(), 1);
    assert_eq!(restored.lookup_by_key(key), Some(42));
}

#[test]
fn rich_eligibility_promotes_compact_fifo_index() {
    let mut projection = projection_of(&qdef());
    apply(
        &mut projection,
        QueueCommand::Push(vec![
            PushItem { priority: None, ..push_item(1, "1", 10) },
            PushItem { priority: None, not_before: Some(ts(10)), ..push_item(2, "2", 20) },
        ]),
    );
    assert!(matches!(projection.eligible, EligibilityIndex::Rich(_)));
    assert_eq!(projection.eligible_candidates(ts(0), 10), vec![1]);
    assert_eq!(projection.eligible_candidates(ts(10), 10), vec![1, 2]);
}

#[test]
fn eligibility_key_uses_compact_unpriced_rank() {
    let unpriced = record(1);
    let priced = ItemRecord { priority: Some(PriorityValue::Int64(7)), created_seq: 1, ..record(2) };
    let unpriced_key = elig_key(&unpriced, &model());
    let priced_key = elig_key(&priced, &model());
    assert!(matches!(unpriced_key.rank, EligRank::Unpriced));
    assert!(matches!(priced_key.rank, EligRank::Priced(_)));
    assert_eq!(priced_key.standing(&unpriced_key), Standing::Below);
}

#[test]
fn metrics_are_maintained_across_lifecycle_replace_and_purge() {
    let mut projection = projection_of(&qdef());
    apply(&mut projection, QueueCommand::Push(vec![push_item(1, "k1", 10), push_item(2, "k2", 20)]));
    assert_eq!(projection.metrics(), QueueMetrics { pending: 2, ..none_left() });
    apply(&mut projection, claim(vec![1], "lt", 60));
    assert_eq!(projection.metrics(), QueueMetrics { pending: 1, leased: 1, ..none_left() });
    apply(&mut projection, complete(1));
    assert_eq!(
        projection.metrics(),
        QueueMetrics { pending: 1, complete: 1, resident_terminal_count: 1, ..none_left() }
    );
    apply(&mut projection, QueueCommand::PurgeItems(PurgeItemsCommand { item_ids: vec![1, 2], force: true }));
    assert_eq!(projection.metrics(), none_left());
}

#[test]
fn pel_indexes_bound_pages_and_requested_id_reads() {
    let mut projection = projection_of(&qdef());
    let items = (1..=1_000).map(|id| push_item(id, &format!("k{id}"), id as i64)).collect();
    apply(&mut projection, QueueCommand::Push(items));
    apply(&mut projection, claim((1..=1_000).collect(), "consumer-a", 60));
    apply(
        &mut projection,
        QueueCommand::ReassignLease(ReassignLeaseCommand {
            item_ids: vec![500, 900],
            lease_token: "consumer-b".to_string(),
            lease_expires_at: ts(120),
        }),
    );

    let page = projection.pending_page(Some(498), 3);
    assert_eq!(page.entries.iter().map(|e| e.item_id).collect::<Vec<_>>(), vec![498, 499, 500]);
    assert_eq!(page.next, Some(501));
    assert_eq!(page.entries.len(), 3, "page output is request-bounded");

    let second = "consumer-b".to_string();
    let consumer_page = projection.pending_range(None, None, Some(&second), 1);
    assert_eq!(consumer_page.len(), 1);
    assert_eq!(consumer_page[0].item_id, 500);
    let requested = projection.pending_by_ids(&vec![900, 1, 4040]);
    assert_eq!(requested.iter().map(|e| e.item_id).collect::<Vec<_>>(), vec![900, 1]);
    let summary = projection.pending_summary();
    assert_eq!(summary.count, 1_000);
    assert_eq!(summary.min_id, Some(1));
    assert_eq!(summary.max_id, Some(1000));
    assert_eq!(
        summary.consumers,
        vec![("consumer-a".to_string(), 998), ("consumer-b".to_string(), 2)],
        "consumer counts come from the maintained set index"
    );
}

#[test]
fn ordinary_expiry_index_tracks_every_lease_lifecycle_transition() {
    let definition = qdef();
    let mut projection = projection_of(&definition);
    let items = (1..=5).map(|id| push_item(id, &format!("k{id}"), id as i64)).collect();
    apply(&mut projection, QueueCommand::Push(items));
    apply(&mut projection, claim(vec![1], "ordinary-1", 10));
    apply(&mut projection, claim(vec![2], "ordinary-2", 100));
    apply(
        &mut projection,
        QueueCommand::CohortClaim(CohortClaimCommand {
            cohort_id: "cohort".to_string(),
            item_ids: vec![3],
            lease_token: "cohort-lease".to_string(),
            lease_expires_at: ts(5),
        }),
    );
    apply(&mut projection, claim(vec![4], "ordinary-4", 30));
    assert_eq!(projection.expired_leases(ts(50)), vec![1, 4]);

    apply(
        &mut projection,
        QueueCommand::RenewLease(RenewLeaseCommand { item_ids: vec![1], lease_expires_at: ts(60) }),
    );
    apply(
        &mut projection,
        QueueCommand::ReassignLease(ReassignLeaseCommand {
            item_ids: vec![2],
            lease_token: "ordinary-2b".to_string(),
            lease_expires_at: ts(20),
        }),
    );
    assert_eq!(projection.expired_leases(ts(50)), vec![2, 4]);

    apply(&mut projection, complete(2));
    apply(&mut projection, QueueCommand::LeaseExpired(vec![4]));
    apply(&mut projection, claim(vec![5], "ordinary-5", 15));
    apply(&mut projection, QueueCommand::PurgeItems(PurgeItemsCommand { item_ids: vec![5], force: true }));
    assert!(projection.expired_leases(ts(50)).is_empty());

    let image = projection.to_image(None);
    let restored = ProjectionData::from_image(&definition, &image).ok().unwrap();
    assert_eq!(restored.expired_leases(ts(70)), vec![1]);
    assert!(!restored.expired_leases(ts(200)).contains(&3));
}

#[test]
fn ten_million_analog_expiry_page_work_ignores_nonexpired_residents() {
    let mut projection = projection_of(&qdef());
    projection.ordinary_leases_by_expiry.insert((ts(1), 1));
    projection.ordinary_leases_by_expiry.insert((ts(1), 2));
    let (_, baseline_work) = projection.expired_leases_after(ts(10), None, 2);
    for id in 10_000..110_000 {
        projection.ordinary_leases_by_expiry.insert((ts(1_000), id));
    }
    let (rows, scaled_work) = projection.expired_leases_after(ts(10), None, 2);
    assert_eq!(rows.len(), 2);
    assert_eq!(baseline_work, 2);
    assert_eq!(scaled_work, baseline_work);
}

#[test]
fn expiry_cursor_is_exact_across_queues_sharing_a_deadline() {
    let mut projection = projection_of(&qdef());
    projection.ordinary_leases_by_expiry.insert((ts(10), 1));
    projection.ordinary_leases_by_expiry.insert((ts(10), 2));
    projection.ordinary_leases_by_expiry.insert((ts(20), 3));

    let (after, _) = projection.expired_leases_after(ts(30), Some((ts(10), Standing::Above, 999)), 8);
    assert_eq!(after, vec![(ts(10), 1), (ts(10), 2), (ts(20), 3)]);
    let (same, _) = projection.expired_leases_after(ts(30), Some((ts(10), Standing::Same, 1)), 8);
    assert_eq!(same, vec![(ts(10), 2), (ts(20), 3)]);
    let (before, _) = projection.expired_leases_after(ts(30), Some((ts(10), Standing::Below, 0)), 8);
    assert_eq!(before, vec![(ts(20), 3)]);
}

#[test]
fn reap_waits_for_emission() {
    let definition = qdef();
    let retention = definition.terminal_retention_ms;
    let mut projection = projection_of(&definition);
    projection.items.insert(1, terminal_record(1, ts(0), CommandPosition::new(shard(), 0, 3)));
    projection.metrics.complete = 1;
    projection.metrics.resident_terminal_count = 1;

    let passed = CommandPosition::new(shard(), 0, 3);
    assert!(projection.reap_terminal_items(ts(30), retention, true, Some(&passed)).is_empty());
    assert!(projection.items.contains_key(&1));

    let now = ts(90);
    let behind = CommandPosition::new(shard(), 0, 2);
    assert!(projection.reap_terminal_items(now, retention, true, Some(&behind)).is_empty());
    assert!(projection.items.contains_key(&1));
    assert_eq!(
        projection.terminal_emission_metrics(now, true, Some(&behind)),
        TerminalEmissionMetrics {
            resident_terminal_count: 1,
            emission_lag_commands: 1,
            emission_oldest_unemitted_age_ms: 90_000,
        }
    );
    assert_eq!(
        projection.terminal_emission_metrics(now, true, Some(&passed)),
        TerminalEmissionMetrics {
            resident_terminal_count: 1,
            emission_lag_commands: 0,
            emission_oldest_unemitted_age_ms: 0,
        }
    );

    assert_eq!(projection.reap_terminal_items(now, retention, true, Some(&passed)), vec![1]);
    assert!(!projection.items.contains_key(&1));
    assert_eq!(
        projection.terminal_emission_metrics(now, true, Some(&passed)),
        TerminalEmissionMetrics {
            resident_terminal_count: 0,
            emission_lag_commands: 0,
            emission_oldest_unemitted_age_ms: 0,
        }
    );
}

#[test]
fn reap_ignores_emission_when_disabled() {
    let definition = qdef();
    let mut projection = projection_of(&definition);
    projection.items.insert(1, terminal_record(1, ts(0), CommandPosition::new(shard(), 0, 7)));
    projection.metrics.complete = 1;
    projection.metrics.resident_terminal_count = 1;

    let now = ts(90);
    let behind = CommandPosition::new(shard(), 0, 2);
    assert_eq!(
        projection.terminal_emission_metrics(now, false, Some(&behind)),
        TerminalEmissionMetrics {
            resident_terminal_count: 1,
            emission_lag_commands: 0,
            emission_oldest_unemitted_age_ms: 0,
        }
    );
    let reaped = projection.reap_terminal_items(now, definition.terminal_retention_ms, false, Some(&behind));
    assert_eq!(reaped, vec![1]);
    assert!(!projection.items.contains_key(&1));
    assert_eq!(projection.metrics(), none_left());
}

/// A queue whose only item was pushed, claimed and completed, and where the log stands then.
fn finished_item() -> (ProjectionData, LogData, CommandPosition) {
    let mut log = LogData::new();
    let mut projection = projection_of(&qdef());
    let at = |command, seconds: i64| {
        Arc::new(CommandEnvelope {
            command_id: "c".to_string(),
            request_id: None,
            request_fingerprint: None,
            request_outcome: None,
            command,
            created_at: ts(seconds),
        })
    };
    for envelope in [
        at(QueueCommand::Push(vec![PushItem { priority: None, ..push_item(1, "1", 0) }]), 0),
        at(claim(vec![1], "lease-1", 120), 1),
        at(complete(1), 2),
    ] {
        let positions = log.append(&shard(), &vec![envelope.clone()], 0).ok().unwrap();
        let applied =
            projection.apply_command_at(Some(envelope.created_at), Some(&positions[0]), &envelope.command);
        assert!(applied.is_ok());
    }
    assert_eq!(projection.item_state(1), Some(ItemState::Complete));
    let position = log.high_water().unwrap();
    (projection, log, position)
}

#[test]
fn td008_observed_terminal_reap_frontier_run() {
    let (mut projection, log, terminal_position) = finished_item();
    let retention = qdef().terminal_retention_ms;
    let expired_now = ts(63);
    assert_eq!(
        projection.metrics(),
        QueueMetrics { complete: 1, resident_terminal_count: 1, ..none_left() }
    );
    assert!(projection.reap_terminal_items(expired_now, retention, true, None).is_empty());
    assert_eq!(projection.item_state(1), Some(ItemState::Complete));

    let emitted = log.read_from(&shard(), &None, 2);
    let cursor = emitted.entries[1].0.duplicate();
    assert!(cursor.same(&CommandPosition::new(shard(), 0, 1)));
    assert!(projection.reap_terminal_items(expired_now, retention, true, Some(&cursor)).is_empty());
    assert_eq!(projection.item_state(1), Some(ItemState::Complete));

    let emitted = log.read_from(&shard(), &Some(cursor), 1);
    let cursor = emitted.entries[0].0.duplicate();
    assert!(cursor.same(&terminal_position));
    assert_eq!(projection.reap_terminal_items(expired_now, retention, true, Some(&cursor)), vec![1]);
    assert_eq!(projection.item_state(1), None);
}

#[test]
fn td008_observed_terminal_reap_no_premature_deletion() {
    let (mut projection, log, terminal_position) = finished_item();
    let retention = qdef().terminal_retention_ms;
    let emitted = log.read_from(&shard(), &None, 8);
    let cursor = emitted.entries.last().unwrap().0.duplicate();
    assert!(cursor.same(&terminal_position));
    assert!(projection.reap_terminal_items(ts(30), retention, true, Some(&cursor)).is_empty());
    assert_eq!(projection.item_state(1), Some(ItemState::Complete));
    assert_eq!(projection.reap_terminal_items(ts(63), retention, true, Some(&cursor)), vec![1]);
    assert_eq!(projection.item_state(1), None);
}

#[test]
fn td008_observed_retention_only_reap_run() {
    let (mut projection, _, terminal_position) = finished_item();
    let retention = qdef().terminal_retention_ms;
    assert_eq!(projection.reap_terminal_items(ts(63), retention, false, None), vec![1]);
    assert_eq!(projection.item_state(1), None);
    assert!(terminal_position.sequence > 0);
}

#[test]
fn td008_observed_retention_only_ignores_emission_cursor() {
    let (mut projection, log, terminal_position) = finished_item();
    let retention = qdef().terminal_retention_ms;
    assert!(terminal_position.sequence >= 2);
    let emitted = log.read_from(&shard(), &None, 1);
    assert_eq!(emitted.entries.len(), 1);
    let cursor = emitted.entries[0].0.duplicate();
    assert!(cursor.same(&CommandPosition::new(
        shard(),
        terminal_position.backend_epoch,
        terminal_position.sequence - 2,
    )));
    assert_eq!(projection.reap_terminal_items(ts(63), retention, false, Some(&cursor)), vec![1]);
    assert_eq!(projection.item_state(1), None);
}

#[test]
fn projection_image_roundtrips_full_projection_state() {
    let mut definition = qdef();
    definition.eligibility_policy.gate_keys = GateKeyPolicy::Dynamic;
    definition.eligibility_policy.max_gate_keys_per_item = Some(4);
    definition.eligibility_policy.max_gates_per_request = Some(4);
    let mut projection = projection_of(&definition).with_eligibility_policy(definition.eligibility_policy);
    apply(&mut projection, QueueCommand::Push(vec![rich_push_item(1, "k1", 10)]));
    apply(&mut projection, claim(vec![1], "lease-1", 60));
    apply(&mut projection, QueueCommand::PauseQueue(false));
    apply(
        &mut projection,
        QueueCommand::WriteSideRecords(vec![SideRecord {
            key: b"side-key".to_vec(),
            payload: Bytes::from_static(b"side-payload"),
        }]),
    );
    apply(
        &mut projection,
        QueueCommand::AdvanceInstanceFence(AdvanceInstanceFenceCommand {
            instance_key: b"instance".to_vec(),
            expected: 0,
            next: 9,
        }),
    );

    let image = projection.to_image(Some(CommandPosition::new(shard(), 2, 42)));
    let restored = ProjectionData::from_image(&definition, &image).ok().unwrap();
    let position = image.high_water.as_ref().unwrap();
    assert!(position.same(&CommandPosition::new(shard(), 2, 42)));
    let again = restored.to_image(Some(CommandPosition::new(shard(), 2, 42)));
    assert!(again.high_water.as_ref().unwrap().same(position));
    assert_eq!(again.paused, image.paused);
    assert_eq!(again.pause_drain_intake, image.pause_drain_intake);
    assert_eq!(again.blocked_gates.len(), image.blocked_gates.len());
    assert!((0..image.blocked_gates.len()).all(|i| again.blocked_gates.at(i) == image.blocked_gates.at(i)));
    assert_eq!(again.next_seq, image.next_seq);
    assert_eq!(again.metrics, image.metrics);
    assert_eq!(again.side_records.len(), image.side_records.len());
    assert!((0..image.side_records.len()).all(|i| {
        again.side_records.key_at(i) == image.side_records.key_at(i)
            && again.side_records.value_at(i) == image.side_records.value_at(i)
    }));
    assert_eq!(again.instance_fences.len(), image.instance_fences.len());
    assert!((0..image.instance_fences.len()).all(|i| {
        again.instance_fences.key_at(i) == image.instance_fences.key_at(i)
            && again.instance_fences.value_at(i) == image.instance_fences.value_at(i)
    }));
    assert_eq!(again.items.len(), 1);
    let (a, b) = (&again.items[0], &image.items[0]);
    assert_eq!(a.item_id, b.item_id);
    assert_eq!(a.client_item_key, b.client_item_key);
    assert_eq!(a.priority, b.priority);
    assert_eq!(a.not_before, b.not_before);
    assert_eq!(a.eligible_since, b.eligible_since);
    assert_eq!(a.group_key, b.group_key);
    assert_eq!(a.cohort_size, b.cohort_size);
    assert_eq!(a.payload, b.payload);
    assert_eq!(a.fields.len(), b.fields.len());
    assert!((0..b.fields.len())
        .all(|i| a.fields.key_at(i) == b.fields.key_at(i) && a.fields.value_at(i) == b.fields.value_at(i)));
    assert_eq!(a.metadata.len(), b.metadata.len());
    assert!((0..b.metadata.len()).all(|i| {
        a.metadata.key_at(i) == b.metadata.key_at(i) && a.metadata.value_at(i).identical(b.metadata.value_at(i))
    }));
    assert_eq!(a.gate_keys, b.gate_keys);
    let (c, d) = (a.entity_document.as_ref().unwrap(), b.entity_document.as_ref().unwrap());
    assert!(c.document.identical(&d.document));
    assert_eq!(c.keys, d.keys);
    assert_eq!(a.state, b.state);
    assert_eq!(a.item_version, b.item_version);
    assert_eq!(a.attempt_count, b.attempt_count);
    assert_eq!(a.max_attempts, b.max_attempts);
    assert_eq!(a.created_seq, b.created_seq);
    assert_eq!(a.lease_token, b.lease_token);
    assert_eq!(a.lease_expires_at, b.lease_expires_at);
    assert_eq!(a.lease_is_cohort, b.lease_is_cohort);
    assert_eq!(a.worker_id, b.worker_id);
    assert_eq!(a.fenced, b.fenced);
    assert_eq!(a.superseded, b.superseded);
    assert_eq!(a.terminal_at, b.terminal_at);
    assert!(a.terminal_position.is_none() && b.terminal_position.is_none());

    assert!(restored.is_paused());
    assert_eq!(restored.metrics().leased, 1);
    assert_eq!(restored.pending_leases()[0].lease_token, "lease-1");
    assert_eq!(
        restored.side_record(&b"side-key".to_vec()),
        Some(&Bytes::from_static(b"side-payload"))
    );
    assert_eq!(restored.instance_fence(&b"instance".to_vec()), Some(9));
    let found = restored
        .index_lookup("by_color", &vec![b"red".to_vec()], Err(EngineError::NotFound))
        .ok()
        .unwrap();
    assert_eq!(found[0].item_id, 1);
    let live = restored.live_items_by_key(&vec!["k1".to_string()]);
    let item = live[0].as_ref().unwrap();
    assert_eq!(item.fields.get(&"color".to_string()), Some(&Bytes::from_static(b"red")));
    assert_eq!(item.payload, Some(Bytes::from_static(b"payload")));
}

#[test]
fn a_lapsing_cohort_counts_no_superseded_member_and_ends_every_lease() {
    let mut p = plain_projection(OrderingMode::Strict, 0);
    apply(
        &mut p,
        QueueCommand::Push(vec![push_item_g(1, "k1", 1, "g"), push_item_g(2, "k2", 2, "g"), push_item_g(3, "k3", 3, "g")]),
    );
    apply(
        &mut p,
        QueueCommand::ReplacePending(ReplacePendingCommand {
            superseded_item_id: 1,
            client_item_key: "k1".to_string(),
            replacement: push_item_g(4, "k1", 1, "h"),
        }),
    );
    apply(&mut p, claim(vec![2], "lease", 50));
    assert_eq!(p.expired_leases(ts(60)), vec![2]);
    apply(&mut p, QueueCommand::CohortExpired("g".to_string()));
    assert_eq!(
        p.metrics(),
        QueueMetrics { pending: 1, failed: 2, resident_terminal_count: 2, ..none_left() }
    );
    assert_eq!(p.item_state(1), Some(ItemState::Failed));
    assert!(p.pending_leases().is_empty());
    assert!(p.expired_leases(ts(60)).is_empty());
    assert_eq!(p.eligible_candidates(ts(0), 10), vec![4]);
}

#[test]
fn bounded_relaxed_selection_reorders_within_the_rank_bound() {
    let bound = 2u32;
    let build = |mode: OrderingMode, b: u32| {
        let mut log = LogData::new();
        let mut proj = plain_projection(mode, b);
        for p in [
            push_item_g(1, "k1", 1, "z"),
            push_item_g(2, "k2", 2, "a"),
            push_item_g(3, "k3", 3, "a"),
            push_item_g(4, "k4", 4, "z"),
            push_item_g(5, "k5", 5, "z"),
        ] {
            commit_one(&mut log, &mut proj, QueueCommand::Push(vec![p]));
        }
        proj
    };
    let strict_order = build(OrderingMode::Strict, 0).eligible_candidates(ts(1_000), 100);
    assert_eq!(strict_order, vec![1, 2, 3, 4, 5], "strict selects exact priority-ascending head order");
    let zero = build(OrderingMode::BoundedRelaxed, 0);
    assert_eq!(zero.eligible_candidates(ts(1_000), 100), strict_order, "a 0 bound is strict-equivalent");

    let order = build(OrderingMode::BoundedRelaxed, bound).eligible_candidates(ts(1_000), 100);
    assert_eq!(order.len(), 5, "INV-4: every eligible item is selected");
    assert_ne!(order, strict_order, "selection genuinely relaxed");
    let place = |id: &ItemId| strict_order.iter().position(|x| x == id).unwrap();
    let rank_error = order
        .iter()
        .enumerate()
        .map(|(delivered, id)| (delivered as i64 - place(id) as i64).unsigned_abs())
        .max()
        .unwrap();
    assert!(rank_error > 0, "INV-6: relaxation observed (non-zero)");
    assert!(rank_error <= bound as u64, "INV-6: rank error {rank_error} exceeds bound {bound}");
}

fn update(item_id: ItemId) -> UpdateFieldsCommand {
    UpdateFieldsCommand {
        item_id,
        client_item_key: None,
        expected_item_version: None,
        field_ops: vec![],
        payload: PayloadUpdate::Keep,
        set_priority: PriorityUpdate::Keep,
        set_not_before: NotBeforeUpdate::Keep,
        set_entity_document: None,
        set_fields: None,
        set_metadata: None,
        set_gate_keys: None,
        api001_batch: false,
    }
}

#[test]
fn eligibility_key_rekeys_when_not_before_changes() {
    let mut log = LogData::new();
    let mut proj = plain_projection(OrderingMode::Strict, 0);
    for p in [push_item(1, "k1", 1), push_item(2, "k2", 2)] {
        commit_one(&mut log, &mut proj, QueueCommand::Push(vec![p]));
    }
    commit_one(
        &mut log,
        &mut proj,
        QueueCommand::UpdateFields(UpdateFieldsCommand {
            set_not_before: NotBeforeUpdate::Replace(Some(ts(5_000))),
            ..update(1)
        }),
    );
    assert_eq!(proj.eligible_candidates(ts(1_000), 10), vec![2]);
    assert_eq!(proj.eligible_candidates(ts(6_000), 10), vec![1, 2]);

    commit_one(&mut log, &mut proj, claim(vec![1], "lease-1", 7_000));
    commit_one(
        &mut log,
        &mut proj,
        QueueCommand::Finalize(vec![FinalizeOutcome {
            item_id: 1,
            kind: FinalizeKind::Retry,
            applied_state: Some(ItemState::Pending),
            not_before: Some(ts(10_000)),
        }]),
    );
    assert_eq!(proj.eligible_candidates(ts(9_000), 10), vec![2]);
    assert_eq!(proj.eligible_candidates(ts(11_000), 10), vec![1, 2]);
}

#[test]
fn api001_update_command_applies_full_replacements() {
    let mut log = LogData::new();
    let mut proj = plain_projection(OrderingMode::Strict, 0);
    commit_one(&mut log, &mut proj, QueueCommand::Push(vec![push_item(1, "k1", 1)]));
    let mut fields: FieldMap = OrdMap::new();
    fields.insert("replacement".to_string(), Bytes::from_static(b"value"));
    let mut metadata: Metadata = OrdMap::new();
    metadata.insert("source".to_string(), Json::Text("batch".to_string()));
    commit_one(
        &mut log,
        &mut proj,
        QueueCommand::UpdateFields(UpdateFieldsCommand {
            payload: PayloadUpdate::Replace(Some(Bytes::from_static(b"payload"))),
            set_fields: Some(Arc::new(fields)),
            set_metadata: Some(Arc::new(metadata)),
            set_gate_keys: Some(Arc::new(vec!["gate-a".to_string()])),
            api001_batch: true,
            ..update(1)
        }),
    );
    let row = proj.live_items_by_key(&vec!["k1".to_string()]).pop().flatten().unwrap();
    assert_eq!(row.fields.len(), 1);
    assert_eq!(row.fields.get(&"replacement".to_string()), Some(&Bytes::from_static(b"value")));
    assert_eq!(text(&row.payload), Some(&b"payload"[..]));
    assert_eq!(row.item_version, 2);
    let stored = proj.items.get(&1).unwrap();
    assert_eq!(stored.metadata.len(), 1);
    assert!(stored.metadata.get(&"source".to_string()).unwrap().same(&Json::Text("batch".to_string())));
    assert_eq!(*stored.gate_keys, vec!["gate-a".to_string()]);
}

fn image_item(id: ItemId, key: &str, priority: i64, seq: u64, superseded: bool) -> ProjectionImageItem {
    ProjectionImageItem {
        item_id: id,
        client_item_key: key.to_string(),
        priority: Some(PriorityValue::Int64(priority)),
        not_before: None,
        eligible_since: Some(ts(0)),
        group_key: None,
        cohort_size: None,
        payload: None,
        fields: Arc::new(OrdMap::new()),
        metadata: Arc::new(OrdMap::new()),
        gate_keys: Arc::new(vec![]),
        entity_document: None,
        state: ItemState::Pending,
        item_version: 1,
        attempt_count: 0,
        max_attempts: 3,
        created_seq: seq,
        lease_token: None,
        lease_expires_at: None,
        lease_is_cohort: false,
        worker_id: None,
        fenced: false,
        superseded,
        terminal_at: None,
        terminal_position: None,
    }
}

#[test]
fn projection_image_does_not_rehydrate_superseded_pending_as_eligible() {
    let image = ProjectionImage {
        high_water: None,
        paused: false,
        pause_drain_intake: false,
        blocked_gates: OrdSet::new(),
        next_seq: 2,
        items: vec![image_item(10, "k-old", 1, 0, true), image_item(11, "k-live", 2, 1, false)],
        side_records: OrdMap::new(),
        instance_fences: OrdMap::new(),
        metrics: none_left(),
    };
    let restored = ProjectionData::from_image(&qdef(), &image).ok().unwrap();
    assert_eq!(restored.eligible_candidates(ts(1_000), 10), vec![11]);
    assert!(restored.live_items_by_key(&vec!["k-old".to_string()])[0].is_none());
}

#[test]
fn read_from_carries_true_per_entry_epoch_across_an_advance() {
    let mut log = LogData::new();
    assert!(log.append(&shard(), &vec![env(QueueCommand::PauseQueue(false))], 0).is_ok());
    assert!(log.append(&shard(), &vec![env(QueueCommand::ResumeQueue)], 0).is_ok());
    assert_eq!(log.advance_epoch(), 1);
    let pos = log.append(&shard(), &vec![env(QueueCommand::PauseQueue(false))], 1).ok().unwrap();
    assert!(matches!(
        log.append(&shard(), &vec![env(QueueCommand::ResumeQueue)], 0),
        Err(EngineError::EpochFenced)
    ));
    let page = log.read_from(&shard(), &None, 10);
    let epochs: Vec<u64> = page.entries.iter().map(|(p, _)| p.backend_epoch).collect();
    let seqs: Vec<u64> = page.entries.iter().map(|(p, _)| p.sequence).collect();
    assert_eq!(epochs, vec![0, 0, 1], "historical entries keep their true epoch");
    assert_eq!(seqs, vec![0, 1, 2], "seq is continuous across the epoch boundary");
    assert_eq!((pos[0].backend_epoch, pos[0].sequence), (1, 2));
    let last = &page.entries.last().unwrap().0;
    assert!(log.high_water().unwrap().same(last));
}

#[test]
fn item_version_is_monotonic_per_item() {
    let mut log = LogData::new();
    let mut proj = plain_projection(OrderingMode::Strict, 0);
    commit_one(&mut log, &mut proj, QueueCommand::Push(vec![push_item(1, "ka", 5)]));
    let v0 = version_of(&proj, 1);
    commit_one(&mut log, &mut proj, claim(vec![1], "lease-1", 500));
    let v1 = version_of(&proj, 1);
    commit_one(
        &mut log,
        &mut proj,
        QueueCommand::RenewLease(RenewLeaseCommand { item_ids: vec![1], lease_expires_at: ts(600) }),
    );
    let v2 = version_of(&proj, 1);
    commit_one(&mut log, &mut proj, complete(1));
    let v3 = version_of(&proj, 1);
    assert_eq!((v0, v1, v2, v3), (1, 2, 3, 4), "item_version bumps exactly once per committed mutation");
}

#[test]
fn high_water_survives_log_compaction() {
    let mut log = LogData::new();
    let mut proj = plain_projection(OrderingMode::Strict, 0);
    for p in [10_i64, 20, 30] {
        commit_one(&mut log, &mut proj, QueueCommand::Push(vec![push_item(p as u64, &format!("k{p}"), p)]));
    }
    let before = log.high_water().unwrap();
    log.entries.clear();
    let after = log.high_water().unwrap();
    assert!(before.same(&after), "high-water is persisted, not recomputed from a compacted log");
    assert_eq!(after.sequence, 2, "3 commits -> seq 2 (would be 0 if recomputed from empty entries)");
}
