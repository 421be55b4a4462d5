use bytes::Bytes;
use fireweed::order::OrdMap;
use fireweed::projection::ProjectionData;
use fireweed::types::{
    AdvanceInstanceFenceCommand, ClaimCommand, FinalizeKind, FinalizeOutcome, GateChange, IndexFields, ItemId,
    ItemState, OrderingMode, PriorityDirection, PriorityModel, PriorityModelKind, PriorityValue, PurgeItemsCommand,
    PushItem, QueueCommand, RecurrenceMode, RecurrencePolicy, SideRecord, UtcTimestamp,
};
use std::sync::Arc;

fn ts(s: i64) -> UtcTimestamp {
    UtcTimestamp { seconds: s, nanoseconds: 0 }
}

fn queue(recurrence: RecurrencePolicy) -> ProjectionData {
    ProjectionData::new(
        PriorityModel { kind: PriorityModelKind::Int64, direction: PriorityDirection::Ascending },
        OrderingMode::Strict,
        0,
        recurrence,
        &vec![],
    )
}

fn once() -> RecurrencePolicy {
    RecurrencePolicy { mode: RecurrenceMode::Oneshot, until: None }
}

fn item(id: ItemId, priority: Option<i64>, max_attempts: u32) -> PushItem {
    PushItem {
        client_item_key: id.to_string(),
        item_id: id,
        priority: priority.map(PriorityValue::Int64),
        not_before: None,
        group_key: None,
        max_attempts,
        payload: None,
        fields: Arc::new(OrdMap::new()),
        metadata: Arc::new(OrdMap::new()),
        cohort_size: None,
        gate_keys: Arc::new(vec!["g".to_string()]),
        entity_document: None,
        index_fields: Arc::new(IndexFields { empty: true, stored: Ok(None), keys: Ok(vec![]) }),
    }
}

fn apply(p: &mut ProjectionData, command: QueueCommand) {
    assert!(p.apply_command(&command).is_ok());
}

fn claim(p: &mut ProjectionData, id: ItemId) {
    apply(
        p,
        QueueCommand::Claim(ClaimCommand {
            item_ids: vec![id],
            lease_token: "t".to_string(),
            lease_expires_at: ts(100),
            worker_id: None,
        }),
    );
}

fn settle(p: &mut ProjectionData, kind: FinalizeKind, not_before: Option<UtcTimestamp>) {
    let outcome = FinalizeOutcome { not_before, ..FinalizeOutcome::new(1, kind) };
    apply(p, QueueCommand::Finalize(vec![outcome]));
}

#[test]
fn pages_follow_each_other_in_either_order() {
    for priced in [false, true] {
        let mut p = queue(once());
        let items = (1..=5).map(|i| item(i, if priced { Some(10 - i as i64) } else { None }, 3)).collect();
        apply(&mut p, QueueCommand::Push(items));
        let expected: Vec<ItemId> = if priced { vec![5, 4, 3, 2, 1] } else { vec![1, 2, 3, 4, 5] };
        assert_eq!(p.eligible_candidates(ts(0), 10), expected);

        let first = p.eligible_candidates(ts(0), 2);
        let next = p.eligible_candidates_after(ts(0), first.last().copied(), 3);
        assert_eq!([first, next].concat(), expected);

        let first = p.peek_page(None, 2);
        let next = p.peek_page(first.last().map(|v| v.item_id), 3);
        let seen: Vec<ItemId> = first.iter().chain(next.iter()).map(|v| v.item_id).collect();
        assert_eq!(seen, expected);
    }
}

#[test]
fn retries_end_with_the_deliveries() {
    let mut p = queue(once());
    apply(&mut p, QueueCommand::Push(vec![item(1, None, 2)]));
    claim(&mut p, 1);
    settle(&mut p, FinalizeKind::Retry, None);
    assert_eq!(p.item_state(1), Some(ItemState::Pending));
    claim(&mut p, 1);
    settle(&mut p, FinalizeKind::Retry, None);
    assert_eq!(p.item_state(1), Some(ItemState::Failed));
}

#[test]
fn series_end_at_their_end() {
    for (next, state) in [(50, ItemState::Pending), (51, ItemState::Complete)] {
        let mut p = queue(RecurrencePolicy { mode: RecurrenceMode::Recurring, until: Some(ts(50)) });
        apply(&mut p, QueueCommand::Push(vec![item(1, None, 3)]));
        claim(&mut p, 1);
        settle(&mut p, FinalizeKind::Rearm, Some(ts(next)));
        assert_eq!(p.item_state(1), Some(state));
    }
}

#[test]
fn side_records_outlive_the_work() {
    let mut p = queue(once());
    apply(&mut p, QueueCommand::Push(vec![item(1, None, 3)]));
    let before = p.metrics();
    let record = SideRecord { key: b"k".to_vec(), payload: Bytes::from_static(b"v") };
    apply(&mut p, QueueCommand::WriteSideRecords(vec![record]));
    apply(
        &mut p,
        QueueCommand::AdvanceInstanceFence(AdvanceInstanceFenceCommand {
            instance_key: b"i".to_vec(),
            expected: 0,
            next: 7,
        }),
    );
    assert!(p.metrics() == before);
    assert_eq!(p.peek(10).len(), 1);
    claim(&mut p, 1);
    settle(&mut p, FinalizeKind::Complete, None);
    apply(&mut p, QueueCommand::PurgeItems(PurgeItemsCommand { item_ids: vec![1], force: true }));
    assert_eq!(p.side_record(&b"k".to_vec()).map(|b| b.to_vec()), Some(b"v".to_vec()));
    assert_eq!(p.instance_fence(&b"i".to_vec()), Some(7));
    assert_eq!(p.instance_fence(&b"j".to_vec()), None);
}

#[test]
fn gates_change_no_item() {
    let mut p = queue(once());
    apply(&mut p, QueueCommand::Push(vec![item(1, None, 3)]));
    apply(&mut p, QueueCommand::SetGates(GateChange { gate_keys: vec!["g".to_string()], blocked: true }));
    assert!(p.eligible_candidates(ts(0), 10).is_empty());
    assert_eq!(p.item_version(1), Some(1));
    assert_eq!(p.metrics().pending, 1);
    apply(&mut p, QueueCommand::SetGates(GateChange { gate_keys: vec!["g".to_string()], blocked: false }));
    assert_eq!(p.eligible_candidates(ts(0), 10), vec![1]);
    assert_eq!(p.item_version(1), Some(1));
}

#[test]
fn counters_that_are_full_have_no_room() {
    let mut p = queue(once());
    let push = QueueCommand::Push(vec![item(1, None, 3)]);
    assert!(p.has_room_for(&push));
    p.next_seq = u64::MAX;
    assert!(!p.has_room_for(&push));
    assert!(p.has_room_for(&QueueCommand::ResumeQueue));
    p.next_seq = 0;
    apply(&mut p, push);
    p.metrics.leased = u64::MAX;
    let claim = QueueCommand::Claim(ClaimCommand {
        item_ids: vec![1],
        lease_token: "t".to_string(),
        lease_expires_at: ts(100),
        worker_id: None,
    });
    assert!(!p.has_room_for(&claim));
    p.metrics.leased = 0;
    assert!(p.has_room_for(&claim));
}
