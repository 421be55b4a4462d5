use fireweed::claims::{ClaimCompatibility, ClaimUnit};
use fireweed::image::ProjectionImage;
use fireweed::json::Json;
use fireweed::log::ProjectionSnapshot;
use fireweed::order::{OrdMap, OrdSet};
use fireweed::stores::{InMemoryProjection, MemoryLog};
use fireweed::types::{
    ClaimCommand, CommandEnvelope, CommandPosition, EligibilityPolicy, EngineError, FinalizeKind,
    FinalizeOutcome, GateKeyPolicy, IndexFields, ItemId, Metadata, OrderingMode, PriorityDirection,
    PriorityModel, PriorityModelKind, PriorityValue, PushItem, QueueCommand, QueueDefinition, QueueKey,
    RecurrenceMode, RecurrencePolicy, UtcTimestamp,
};
use std::future::Future;
use std::sync::Arc;
use std::task::{Context, Poll, Wake, Waker};

fn queue(tenant: &str, name: &str) -> QueueKey {
    QueueKey { tenant_id: tenant.to_string(), queue_id: name.to_string() }
}

fn shard() -> QueueKey {
    queue("tenant", "queue")
}

fn ts(s: i64) -> UtcTimestamp {
    UtcTimestamp::new(s, 0).unwrap()
}

fn definition() -> QueueDefinition {
    QueueDefinition {
        priority_model: PriorityModel {
            kind: PriorityModelKind::Int64,
            direction: PriorityDirection::Ascending,
        },
        ordering_mode: OrderingMode::Strict,
        max_rank_error: 0,
        recurrence: RecurrencePolicy { mode: RecurrenceMode::Oneshot, until: None },
        eligibility_policy: EligibilityPolicy {
            gate_keys: GateKeyPolicy::Disabled,
            max_gate_keys_per_item: None,
            max_gates_per_request: None,
        },
        cohort_completion_bound_ms: None,
        request_id_retention_ms: 60_000,
        client_item_key_retention_ms: 60_000,
        terminal_retention_ms: 60_000,
        secondary_indexes: vec![],
        typed_indexes: vec![],
    }
}

fn region(name: &str) -> Metadata {
    let mut m: Metadata = OrdMap::new();
    m.insert("region".to_string(), Json::Text(name.to_string()));
    m
}

fn item(id: ItemId, key: &str, priority: i64, group: Option<&str>, metadata: Metadata) -> PushItem {
    PushItem {
        client_item_key: key.to_string(),
        item_id: id,
        priority: Some(PriorityValue::Int64(priority)),
        not_before: None,
        group_key: group.map(|g| g.to_string()),
        max_attempts: 3,
        payload: None,
        fields: Arc::new(OrdMap::new()),
        metadata: Arc::new(metadata),
        cohort_size: None,
        gate_keys: Arc::new(vec![]),
        entity_document: None,
        index_fields: Arc::new(IndexFields { empty: true, stored: Ok(None), keys: Ok(vec![]) }),
    }
}

fn plain(id: ItemId, group: &str) -> PushItem {
    item(id, &format!("k{id}"), id as i64, Some(group), OrdMap::new())
}

fn member(id: ItemId, group: &str, size: u64) -> PushItem {
    PushItem { cohort_size: Some(size), ..plain(id, group) }
}

fn envelope(command: QueueCommand) -> CommandEnvelope {
    CommandEnvelope {
        command_id: "push".to_string(),
        request_id: None,
        request_fingerprint: None,
        request_outcome: None,
        command,
        created_at: ts(10),
    }
}

fn store_of(queues: Vec<(QueueKey, Vec<QueueCommand>)>) -> InMemoryProjection {
    let mut store = InMemoryProjection::new();
    for (key, commands) in queues {
        assert!(store.ensure_shard(&key, &definition()).is_ok());
        for (i, command) in commands.into_iter().enumerate() {
            let position = CommandPosition::new(key.duplicate(), 1, i as u64);
            assert!(store.apply_borrowed(&vec![position], &vec![envelope(command)]).is_ok());
        }
    }
    store
}

fn pushed(items: Vec<PushItem>) -> InMemoryProjection {
    store_of(vec![(shard(), vec![QueueCommand::Push(items)])])
}

fn any() -> ClaimCompatibility {
    ClaimCompatibility { group_key: None, metadata_equals: OrdMap::new(), max_groups: None }
}

fn lease(ids: Vec<ItemId>, expires: i64) -> QueueCommand {
    QueueCommand::Claim(ClaimCommand {
        item_ids: ids,
        lease_token: "lease".to_string(),
        lease_expires_at: ts(expires),
        worker_id: None,
    })
}

#[test]
fn select_item_claim_honors_group_key_and_metadata_equals() {
    let (east_match, east_wrong_group, west) = (1, 2, 3);
    let store = pushed(vec![
        item(east_match, "east-a", 1, Some("group-a"), region("east")),
        item(east_wrong_group, "east-b", 2, Some("group-b"), region("east")),
        item(west, "west-a", 0, Some("group-a"), region("west")),
    ]);
    let compatibility = ClaimCompatibility {
        group_key: Some("group-a".to_string()),
        metadata_equals: region("east"),
        max_groups: None,
    };
    let selected = store.select_item_claim(&shard(), &compatibility, ts(10), 10).ok().unwrap();
    assert_eq!(selected, vec![east_match]);
    let unbound = store.select_item_claim(&shard(), &any(), ts(10), 10).ok().unwrap();
    assert_eq!(unbound, vec![west, east_match, east_wrong_group]);
    assert_eq!(store.select_item_claim(&queue("x", "y"), &any(), ts(10), 0).ok().unwrap(), Vec::<ItemId>::new());
    assert_eq!(
        store.select_item_claim(&queue("x", "y"), &any(), ts(10), 1).err(),
        Some(EngineError::NotFound)
    );
}

struct Idle;

impl Wake for Idle {
    fn wake(self: Arc<Self>) {}
}

fn one_poll<F: Future>(future: F) -> F::Output {
    let waker = Waker::from(Arc::new(Idle));
    let mut context = Context::from_waker(&waker);
    let mut future = Box::pin(future);
    match future.as_mut().poll(&mut context) {
        Poll::Ready(output) => output,
        Poll::Pending => panic!("in-memory async axis must resolve in one poll"),
    }
}

fn assert_send<T: Send>(_: T) {}

#[test]
fn memory_log_async_axis_is_send_one_poll_and_sync_equivalent() {
    let mut log = MemoryLog::new();
    assert_eq!(log.current_epoch(&shard()).err(), Some(EngineError::NotFound));
    assert_send(async { log.ensure_shard(&shard()) });
    assert!(one_poll(async { log.ensure_shard(&shard()) }).is_ok());
    assert_eq!(one_poll(async { log.current_epoch(&shard()) }).ok(), Some(0));
    assert_eq!(one_poll(async { log.acquire_epoch(&shard()) }).ok(), Some(1));
    assert_eq!(one_poll(async { log.current_epoch(&shard()) }).ok(), Some(1));
    assert_eq!(log.current_epoch(&shard()).ok(), Some(1));
}

#[test]
fn in_memory_projection_async_axis_is_send_one_poll_and_sync_equivalent() {
    let store = InMemoryProjection::new();
    assert_send(async { store.recover_definitions() });
    let recovered: Vec<QueueDefinition> = one_poll(async { store.recover_definitions() }).ok().unwrap();
    assert!(recovered.is_empty());
    assert_eq!(
        one_poll(async { store.supports_gates() }),
        InMemoryProjection::new().supports_gates()
    );
    assert!(store.supports_gates());
    let kept = pushed(vec![plain(1, "a")]);
    assert!(kept.recover_definitions().ok().unwrap().is_empty());
}

#[test]
fn logs_give_back_what_was_written() {
    let mut log = MemoryLog::new();
    assert!(!log.is_durable_log());
    assert!(log.ensure_shard(&shard()).is_ok());
    let commands = vec![Arc::new(envelope(QueueCommand::ResumeQueue)); 3];
    assert_eq!(log.append(&shard(), &commands, 4).err(), Some(EngineError::EpochFenced));
    assert_eq!(log.append(&queue("a", "b"), &commands, 0).err(), Some(EngineError::NotFound));
    let positions = log.append(&shard(), &commands, 0).ok().unwrap();
    assert_eq!(positions.iter().map(|p| p.sequence).collect::<Vec<_>>(), vec![0, 1, 2]);
    let page = log.read_from(&shard(), &None, 2).ok().unwrap();
    assert_eq!(page.entries.len(), 2);
    assert_eq!(page.next.unwrap().sequence, 2);
    assert_eq!(log.high_water(&shard()).ok().unwrap().unwrap().sequence, 2);
    assert!(log.high_water(&queue("a", "b")).ok().unwrap().is_none());
    assert_eq!(
        log.set_high_water(&shard(), CommandPosition::new(shard(), 0, 1)).err(),
        Some(EngineError::Invalid("high-water regression"))
    );

    let snapshot = ProjectionSnapshot { payload: vec![1, 2, 3] };
    let at = log.write_snapshot(&shard(), CommandPosition::new(shard(), 0, 1), snapshot).ok().unwrap();
    assert_eq!(at.ref_id, "snap-0");
    assert_eq!(log.read_snapshot(&at).ok().unwrap().payload, vec![1, 2, 3]);
    assert_eq!(log.latest_snapshot(&shard()).ok().unwrap().unwrap().ref_id, "snap-0");
    let early = CommandPosition::new(shard(), 0, 0);
    assert!(log.snapshot_at_or_before(&shard(), &early).ok().unwrap().is_none());
}

#[test]
fn whole_groups_are_taken_until_one_does_not_fit() {
    let store = pushed(vec![plain(1, "a"), plain(2, "b"), plain(3, "a"), plain(4, "c"), plain(5, "c")]);
    let groups = |n: u32| ClaimCompatibility { max_groups: Some(n), ..any() };
    let take = |n: u32, max: usize| {
        store
            .select_rich_claim(&shard(), ClaimUnit::WholeGroup, &groups(n), ts(10), max)
            .map(|s| s.item_ids)
    };
    assert_eq!(take(2, 10).ok(), Some(vec![1, 3, 2]));
    assert_eq!(take(3, 4).ok(), Some(vec![1, 3, 2]));
    assert_eq!(take(0, 4).ok(), Some(vec![]));
    assert_eq!(take(3, 1).err(), Some(EngineError::BatchTooLarge));
}

#[test]
fn a_group_with_a_leased_item_is_not_taken_whole() {
    let store = store_of(vec![(
        shard(),
        vec![QueueCommand::Push(vec![plain(1, "a"), plain(2, "b"), plain(3, "a")]), lease(vec![1], 60)],
    )]);
    let two = ClaimCompatibility { max_groups: Some(2), ..any() };
    let selected = store.select_rich_claim(&shard(), ClaimUnit::WholeGroup, &two, ts(10), 9).ok().unwrap();
    assert_eq!(selected.item_ids, vec![2]);
    assert_eq!(selected.cohort_id, None);
}

#[test]
fn one_group_is_taken_up_to_the_limit() {
    let store = pushed(vec![plain(1, "a"), plain(2, "b"), plain(3, "a"), plain(4, "b")]);
    let take = |group: Option<&str>, max: usize| {
        let c = ClaimCompatibility { group_key: group.map(|g| g.to_string()), ..any() };
        store.select_rich_claim(&shard(), ClaimUnit::SameGroupKey, &c, ts(10), max).ok().unwrap().item_ids
    };
    assert_eq!(take(None, 9), vec![1, 3]);
    assert_eq!(take(Some("b"), 9), vec![2, 4]);
    assert_eq!(take(Some("b"), 1), vec![2]);
    assert_eq!(take(Some("z"), 9), Vec::<ItemId>::new());
    assert_eq!(take(None, 0), vec![1, 3]);
}

#[test]
fn only_complete_cohorts_are_taken() {
    let store = pushed(vec![member(1, "a", 3), member(2, "b", 2), member(3, "a", 3), member(4, "b", 2)]);
    let take =
        |max: usize| store.select_rich_claim(&shard(), ClaimUnit::WholeCohort, &any(), ts(10), max);
    let selected = take(9).ok().unwrap();
    assert_eq!(selected.item_ids, vec![2, 4]);
    assert_eq!(selected.cohort_id, Some("coh:b:1".to_string()));
    assert_eq!(take(1).err(), Some(EngineError::BatchTooLarge));
    let none = pushed(vec![member(1, "a", 3), member(2, "a", 2)]);
    let selected =
        none.select_rich_claim(&shard(), ClaimUnit::WholeCohort, &any(), ts(10), 9).ok().unwrap();
    assert!(selected.item_ids.is_empty() && selected.cohort_id.is_none());
    assert_eq!(
        none.select_rich_claim(&shard(), ClaimUnit::Item, &any(), ts(10), 9).err(),
        Some(EngineError::Unavailable)
    );
}

#[test]
fn sweeps_go_by_expiry_queue_and_item() {
    let store = store_of(vec![
        (queue("a", "q"), vec![
            QueueCommand::Push((1..=3).map(|id| plain(id, "g")).collect()),
            lease(vec![1, 2], 20),
            lease(vec![3], 40),
        ]),
        (queue("b", "q"), vec![
            QueueCommand::Push((4..=6).map(|id| plain(id, "g")).collect()),
            lease(vec![4], 20),
            lease(vec![5], 30),
            lease(vec![6], 90),
        ]),
    ]);
    let all = store.all_expired_leases(ts(50));
    assert_eq!(all.iter().map(|(q, ids)| (q.tenant_id.as_str(), ids.clone())).collect::<Vec<_>>(), vec![
        ("a", vec![1, 2, 3]),
        ("b", vec![4, 5]),
    ]);

    let mut seen = vec![];
    let mut cursor = None;
    let mut pages = 0;
    loop {
        let page = store.expired_leases_page(ts(50), cursor.as_ref(), 2, None).ok().unwrap();
        for (q, ids) in &page.leases {
            seen.extend(ids.iter().map(|id| (q.tenant_id.clone(), *id)));
        }
        pages += 1;
        match page.next {
            Some(next) => cursor = Some(next),
            None => break,
        }
    }
    let order: Vec<ItemId> = seen.iter().map(|(_, id)| *id).collect();
    assert_eq!(order, vec![1, 2, 4, 5, 3]);
    assert_eq!(pages, 3);

    let mut mine: OrdSet<QueueKey> = OrdSet::new();
    mine.insert(queue("b", "q"));
    let page = store.expired_leases_page(ts(50), None, 1, Some(&mine)).ok().unwrap();
    assert_eq!(page.leases[0].1, vec![4]);
    let next = page.next.unwrap();
    assert_eq!((next.expiry, next.item), (20_000_000_000, 4));
    assert_eq!(
        store.expired_leases_page(ts(50), None, 0, None).err(),
        Some(EngineError::Invalid("expired lease page limit must be nonzero"))
    );
}

#[test]
fn recovery_installs_all_or_nothing() {
    let mut store = pushed(vec![plain(1, "a")]);
    let positions =
        |n: u64| (0..n).map(|i| CommandPosition::new(shard(), 1, i)).collect::<Vec<CommandPosition>>();
    let push = |id: ItemId| envelope(QueueCommand::Push(vec![plain(id, "a")]));
    let r = store.install_recovery_shard(&shard(), &definition(), &positions(1), &vec![]);
    assert_eq!(
        r.err(),
        Some(EngineError::Storage("recovery install positions/commands length mismatch".to_string()))
    );
    let missing = envelope(QueueCommand::Finalize(vec![FinalizeOutcome::new(9, FinalizeKind::Complete)]));
    let r = store.install_recovery_shard(&shard(), &definition(), &positions(2), &vec![push(7), missing]);
    assert!(r.is_err());
    assert_eq!(store.get(&shard()).ok().unwrap().item_version(1), Some(1));
    assert_eq!(store.get(&shard()).ok().unwrap().item_version(7), None);
    let r = store.install_recovery_shard(&shard(), &definition(), &positions(2), &vec![push(7), push(8)]);
    assert!(r.is_ok());
    assert_eq!(store.get(&shard()).ok().unwrap().item_version(1), None);
    assert_eq!(store.get(&shard()).ok().unwrap().item_version(8), Some(1));

    let r = store.apply_live_owned(positions(1), vec![]);
    assert_eq!(
        r.err(),
        Some(EngineError::Storage("apply_live_owned: positions/commands length mismatch".to_string()))
    );
    let elsewhere = vec![CommandPosition::new(queue("x", "y"), 1, 0)];
    assert_eq!(store.apply_live_owned(elsewhere, vec![push(9)]).err(), Some(EngineError::NotFound));
}

fn image_of(store: &InMemoryProjection) -> ProjectionImage {
    store.get(&shard()).ok().unwrap().to_image(None)
}

#[test]
fn images_with_other_counts_are_refused() {
    let store = pushed(vec![plain(1, "a"), plain(2, "a")]);
    let mut image = image_of(&store);
    let mut other = InMemoryProjection::new();
    assert!(other.hydrate_shard(&shard(), &definition(), &image).is_ok());
    let page = other.peek_page(&shard(), None, 1).ok().unwrap();
    assert_eq!((page.len(), page[0].item_id), (1, 1));
    image.metrics.pending = 5;
    let r = InMemoryProjection::reconstruct_as_of(&shard(), &definition(), Some(&image));
    match r {
        Err(EngineError::Storage(text)) => assert_eq!(
            text,
            "projection hydration metrics mismatch: image QueueMetrics { pending: 5, leased: 0, \
             complete: 0, failed: 0, resident_terminal_count: 0 }, rebuilt QueueMetrics { pending: 2, \
             leased: 0, complete: 0, failed: 0, resident_terminal_count: 0 }"
        ),
        _ => panic!("the image was taken"),
    }
    let fresh = InMemoryProjection::reconstruct_as_of(&shard(), &definition(), None).ok().unwrap();
    assert_eq!(fresh.get(&shard()).ok().unwrap().metrics().pending, 0);
}
