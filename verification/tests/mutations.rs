use bytes::Bytes;
use fireweed::json::{Json, JsonNumber};
use fireweed::mutation::{
    AddressedMutation, ItemMutationOperation, ItemMutationRequest, ItemMutationReturning, ItemSelector,
    ItemSelectorScope, SelectorClause,
};
use fireweed::order::OrdMap;
use fireweed::planning::{
    BatchUpdateValue, GateKeyPatch, ItemMutationOutcome, ItemMutationPrecondition, ItemPatch, LeaseGuard,
    LifecyclePatch,
};
use fireweed::predicate::ItemPredicate;
use fireweed::projection::ProjectionData;
use fireweed::reads::{BatchUpdateItemRef, ClaimByItemIdClass, ClaimRef};
use fireweed::types::{
    ClaimCommand, EngineError, FieldMap, FinalizeKind, FinalizeOutcome, GateChange, IndexFields, IndexSpec, ItemId,
    ItemState, NotBeforeUpdate, OrderingMode, PayloadUpdate, PriorityDirection, PriorityModel, PriorityModelKind,
    PriorityUpdate, PushItem, QueueCommand, RecurrenceMode, RecurrencePolicy, SideRecord, UpdateFieldsCommand,
    UtcTimestamp,
};
use std::sync::Arc;

fn ts(s: i64) -> UtcTimestamp {
    UtcTimestamp { seconds: s, nanoseconds: 0 }
}

fn colored(color: &'static str) -> Arc<FieldMap> {
    let mut fields = FieldMap::new();
    fields.insert("color".to_string(), Bytes::from_static(color.as_bytes()));
    Arc::new(fields)
}

fn item(id: ItemId, color: &'static str) -> PushItem {
    PushItem {
        client_item_key: format!("key-{id}"),
        item_id: id,
        priority: None,
        not_before: None,
        group_key: Some("g".to_string()),
        max_attempts: 3,
        payload: None,
        fields: colored(color),
        metadata: Arc::new(OrdMap::new()),
        cohort_size: None,
        gate_keys: Arc::new(vec!["gate-a".to_string()]),
        entity_document: None,
        index_fields: Arc::new(IndexFields { empty: true, stored: Ok(None), keys: Ok(vec![]) }),
    }
}

/// A queue in which no two items have one color, with a red and a blue item.
fn two_colors() -> ProjectionData {
    let mut p = ProjectionData::new(
        PriorityModel { kind: PriorityModelKind::Int64, direction: PriorityDirection::Ascending },
        OrderingMode::Strict,
        0,
        RecurrencePolicy { mode: RecurrenceMode::Oneshot, until: None },
        &vec![IndexSpec { name: "by_color".to_string(), fields: vec!["color".to_string()], unique: true }],
    );
    apply(&mut p, QueueCommand::Push(vec![item(1, "red"), item(2, "blue")]));
    p
}

fn apply(p: &mut ProjectionData, command: QueueCommand) {
    assert!(p.apply_command(&command).is_ok());
}

fn claim(p: &mut ProjectionData, id: ItemId, token: &str, expires: i64) {
    apply(
        p,
        QueueCommand::Claim(ClaimCommand {
            item_ids: vec![id],
            lease_token: token.to_string(),
            lease_expires_at: ts(expires),
            worker_id: None,
        }),
    );
}

fn recolor(item_id: ItemId, color: &'static str) -> UpdateFieldsCommand {
    UpdateFieldsCommand {
        item_id,
        client_item_key: None,
        expected_item_version: None,
        field_ops: vec![("color".to_string(), Some(Bytes::from_static(color.as_bytes())))],
        payload: PayloadUpdate::Keep,
        set_priority: PriorityUpdate::Keep,
        set_not_before: NotBeforeUpdate::Keep,
        set_entity_document: None,
        set_fields: None,
        set_metadata: None,
        set_gate_keys: None,
        api001_batch: false,
    }
}

fn hit(p: &ProjectionData, color: &str) -> Option<ItemId> {
    p.index_get_unique("by_color", &vec![color.as_bytes().to_vec()], Ok(vec![]))
        .ok()
        .unwrap()
        .map(|h| h.item_id)
}

#[test]
fn unique_indexes_find_one_item_and_refuse_a_second() {
    let mut p = two_colors();
    assert_eq!(hit(&p, "red"), Some(1));
    assert_eq!(hit(&p, "green"), None);
    assert!(matches!(p.index_validate_push(&vec![item(3, "red")]), Err(EngineError::Conflict)));
    assert!(matches!(
        p.index_validate_push(&vec![item(3, "green"), item(4, "green")]),
        Err(EngineError::Conflict)
    ));
    assert!(p.index_validate_push(&vec![item(3, "green")]).is_ok());
    let ops = recolor(2, "red").field_ops;
    assert!(matches!(p.index_validate_update(2, &ops), Err(EngineError::Conflict)));
    assert!(p.index_validate_update(1, &ops).is_ok());
    assert!(p.index_validate_replace(1, &item(3, "red")).is_ok());
    apply(&mut p, QueueCommand::UpdateFields(recolor(1, "green")));
    assert_eq!((hit(&p, "red"), hit(&p, "green")), (None, Some(1)));
    let hits = p.index_lookup("by_color", &vec![b"green".to_vec()], Ok(vec![])).ok().unwrap();
    assert_eq!(hits.len(), 1);
    assert_eq!((hits[0].client_item_key.as_str(), hits[0].item_version), ("key-1", 2));
    assert!(p.index_lookup("by_size", &vec![b"green".to_vec()], Ok(vec![])).is_err());
    assert!(p.index_lookup("by_color", &vec![], Ok(vec![])).is_err());
}

#[test]
fn updates_of_a_batch_that_clash_are_both_refused() {
    let p = two_colors();
    let accepted = p.batch_update_preflight(&vec![recolor(1, "green"), recolor(2, "green")]).ok().unwrap();
    assert_eq!(accepted, vec![false, false]);
    let accepted = p.batch_update_preflight(&vec![recolor(1, "green"), recolor(2, "red")]).ok().unwrap();
    assert_eq!(accepted, vec![true, false]);
    let accepted = p.batch_update_preflight(&vec![recolor(1, "green"), recolor(9, "gray")]).ok().unwrap();
    assert!(accepted[0]);
}

#[test]
fn items_are_classed_for_a_claim_by_identity() {
    let mut p = two_colors();
    assert_eq!(p.classify_claim_by_item_id(9, ts(0)), ClaimByItemIdClass::NotFound);
    assert_eq!(p.classify_claim_by_item_id(1, ts(0)), ClaimByItemIdClass::Claimable);
    apply(&mut p, QueueCommand::SetGates(GateChange { gate_keys: vec!["gate-a".to_string()], blocked: true }));
    assert_eq!(p.classify_claim_by_item_id(1, ts(0)), ClaimByItemIdClass::NotEligible);
    assert!(p.eligible_candidates(ts(0), 10).is_empty());
    apply(&mut p, QueueCommand::SetGates(GateChange { gate_keys: vec!["gate-a".to_string()], blocked: false }));
    assert_eq!(p.eligible_candidates(ts(0), 10), vec![1, 2]);
    claim(&mut p, 1, "t", 50);
    assert_eq!(p.classify_claim_by_item_id(1, ts(0)), ClaimByItemIdClass::Leased);
    apply(&mut p, QueueCommand::Finalize(vec![FinalizeOutcome::new(1, FinalizeKind::Complete)]));
    assert_eq!(p.classify_claim_by_item_id(1, ts(0)), ClaimByItemIdClass::Terminal);
    apply(&mut p, QueueCommand::PauseQueue(true));
    assert_eq!(p.classify_claim_by_item_id(2, ts(0)), ClaimByItemIdClass::NotEligible);
    assert!(p.is_intake_blocked());
    apply(&mut p, QueueCommand::ResumeQueue);
    assert!(!p.is_paused());
}

fn claimed(token: &str, item_version: u64) -> Vec<ClaimRef> {
    vec![ClaimRef { item_id: 1, lease_token: token.to_string(), item_version }]
}

#[test]
fn claims_are_committed_only_under_a_live_lease() {
    let mut p = two_colors();
    assert!(matches!(p.renew_validate(&vec![1]), Err(EngineError::Invalid("item is not leased"))));
    assert!(matches!(p.renew_validate(&vec![9]), Err(EngineError::NotFound)));
    claim(&mut p, 1, "t", 50);
    assert!(p.renew_validate(&vec![1]).is_ok());
    assert!(p.commit_validate(&claimed("t", 2), ts(50)).is_ok());
    assert!(matches!(p.commit_validate(&claimed("t", 2), ts(51)), Err(EngineError::StaleLease)));
    assert!(matches!(p.commit_validate(&claimed("u", 2), ts(0)), Err(EngineError::StaleLease)));
    assert!(matches!(p.commit_validate(&claimed("t", 1), ts(0)), Err(EngineError::Conflict)));
    let shown = p.render_claimed(&vec![1, 2, 9]);
    assert_eq!(shown.len(), 1);
    assert_eq!((shown[0].item_version, shown[0].attempt_count), (2, 1));
    assert_eq!(shown[0].lease_token.as_deref(), Some("t"));
    apply(&mut p, QueueCommand::FenceLease(vec![1]));
    assert!(matches!(p.reassign_validate(&vec![1]), Err(EngineError::StaleLease)));
    assert!(matches!(p.update_fields_validate(1, None), Err(EngineError::StaleLease)));
    apply(&mut p, QueueCommand::UnfenceLease(vec![1]));
    apply(&mut p, QueueCommand::Finalize(vec![FinalizeOutcome::new(1, FinalizeKind::Fail)]));
    let fails = vec![FinalizeOutcome::new(1, FinalizeKind::Fail)];
    assert!(matches!(p.finalize_validate(&fails), Err(EngineError::Terminal)));
    assert!(matches!(p.update_fields_validate(1, None), Err(EngineError::Terminal)));
    assert!(matches!(p.update_fields_validate(2, Some(7)), Err(EngineError::Conflict)));
    assert!(p.update_fields_validate(2, Some(1)).is_ok());
}

#[test]
fn items_are_read_by_key_and_by_identity() {
    let mut p = two_colors();
    assert_eq!(p.lookup_by_key("key-2"), Some(2));
    assert_eq!(p.lookup_by_key("none"), None);
    let seen = p.batch_update_snapshot(&vec![
        BatchUpdateItemRef::ClientItemKey("key-2".to_string()),
        BatchUpdateItemRef::ItemId(1),
        BatchUpdateItemRef::ItemId(9),
    ]);
    assert_eq!(seen.iter().map(|s| s.item_id).collect::<Vec<_>>(), vec![1, 2]);
    assert_eq!(p.peek(1).iter().map(|v| v.item_id).collect::<Vec<_>>(), vec![1]);
    let live = p.live_items_by_key(&vec!["none".to_string(), "key-1".to_string()]);
    assert!(live[0].is_none() && live[1].is_some());
    let record = SideRecord { key: b"k".to_vec(), payload: Bytes::from_static(b"v") };
    apply(&mut p, QueueCommand::WriteSideRecords(vec![record]));
    assert_eq!(p.side_record(&b"k".to_vec()).map(|b| b.to_vec()), Some(b"v".to_vec()));
    assert!(p.side_record(&b"other".to_vec()).is_none());
    let scopes = p.discover_active_scopes("q", ts(2));
    assert_eq!(scopes.len(), 1);
    assert_eq!(scopes[0].group_key.as_deref(), Some("g"));
    assert_eq!(scopes[0].eligible_count, Some(2));
    assert_eq!(scopes[0].oldest_eligible_age_ms, 2_000);
}

fn patch(lifecycle: LifecyclePatch) -> ItemPatch {
    ItemPatch {
        lifecycle,
        priority: BatchUpdateValue::Keep,
        not_before: BatchUpdateValue::Keep,
        payload: BatchUpdateValue::Keep,
        metadata: BatchUpdateValue::Keep,
        gate_keys: GateKeyPatch { add: vec![], remove: vec![], remove_prefixes: vec![] },
        field_edits: vec![],
        edits_reserved: false,
        entity_edits: vec![],
    }
}

fn addressed(item_id: ItemId, guard: LeaseGuard, patch: ItemPatch) -> AddressedMutation {
    AddressedMutation { item_id, expected_item_version: None, predicates: vec![], lease_guard: guard, patch }
}

fn request(entries: Vec<AddressedMutation>, dry_run: bool) -> ItemMutationRequest {
    ItemMutationRequest {
        request_id: "r".to_string(),
        evaluated_at: ts(10),
        dry_run,
        returning: ItemMutationReturning::BeforeSnapshot,
        operation: ItemMutationOperation::Addressed(entries),
        gate_changes: vec![],
    }
}

fn outcomes(p: &ProjectionData, r: &ItemMutationRequest) -> Vec<ItemMutationOutcome> {
    p.plan_item_mutation(r, &vec![]).ok().unwrap().response.results.iter().map(|x| x.outcome).collect()
}

#[test]
fn addressed_mutations_are_foretold_by_a_dry_run() {
    let mut p = two_colors();
    let entries = || {
        vec![
            addressed(1, LeaseGuard::RejectActive, patch(LifecyclePatch::SetComplete)),
            addressed(2, LeaseGuard::RejectActive, patch(LifecyclePatch::Keep)),
            addressed(9, LeaseGuard::RejectActive, patch(LifecyclePatch::Purge)),
        ]
    };
    assert_eq!(
        outcomes(&p, &request(entries(), true)),
        vec![
            ItemMutationOutcome::WouldUpdate { item_version: 2, state: ItemState::Complete },
            ItemMutationOutcome::NoChange,
            ItemMutationOutcome::NotFound,
        ]
    );
    let plan = p.plan_item_mutation(&request(entries(), false), &vec![]).ok().unwrap();
    assert!(matches!(
        plan.response.results[0].outcome,
        ItemMutationOutcome::Updated { item_version: 2, state: ItemState::Complete }
    ));
    assert_eq!(plan.response.results[0].before.as_ref().unwrap().item_version, 1);
    let s = &plan.response.summary;
    assert_eq!((s.matched, s.changed, s.unchanged, s.purged, s.rejected), (3, 1, 1, 0, 1));
    apply(&mut p, QueueCommand::MutateItems(plan.command));
    assert_eq!(p.item_state(1), Some(ItemState::Complete));
    assert_eq!(p.item_version(1), Some(2));
}

#[test]
fn large_numbers_that_differ_are_a_change() {
    let mut p = two_colors();
    let sized = |n: JsonNumber| {
        let mut metadata = OrdMap::new();
        metadata.insert("n".to_string(), Json::Number(n));
        ItemPatch { metadata: BatchUpdateValue::Replace(Arc::new(metadata)), ..patch(LifecyclePatch::Keep) }
    };
    let ask = |n: JsonNumber| request(vec![addressed(1, LeaseGuard::RejectActive, sized(n))], false);
    let plan = p.plan_item_mutation(&ask(JsonNumber::Unsigned(u64::MAX)), &vec![]).ok().unwrap();
    apply(&mut p, QueueCommand::MutateItems(plan.command));
    let changed = ItemMutationOutcome::Updated { item_version: 3, state: ItemState::Pending };
    assert_eq!(outcomes(&p, &ask(JsonNumber::Unsigned(u64::MAX - 1))), vec![changed]);
    assert_eq!(outcomes(&p, &ask(JsonNumber::Unsigned(u64::MAX))), vec![ItemMutationOutcome::NoChange]);
}

#[test]
fn live_leases_are_guarded() {
    let mut p = two_colors();
    claim(&mut p, 1, "t", 50);
    let ask = |guard: LeaseGuard| request(vec![addressed(1, guard, patch(LifecyclePatch::SetFailed))], false);
    assert_eq!(outcomes(&p, &ask(LeaseGuard::RejectActive)), vec![ItemMutationOutcome::PreconditionFailed(
        ItemMutationPrecondition::ActiveLease
    )]);
    assert_eq!(outcomes(&p, &ask(LeaseGuard::Match("u".to_string()))), vec![ItemMutationOutcome::StaleLease]);
    let done = ItemMutationOutcome::Updated { item_version: 3, state: ItemState::Failed };
    assert_eq!(outcomes(&p, &ask(LeaseGuard::Match("t".to_string()))), vec![done]);
    assert_eq!(outcomes(&p, &ask(LeaseGuard::InvalidateActive)), vec![done]);
}

#[test]
fn the_first_clause_that_selects_an_item_decides() {
    let p = two_colors();
    let clause = |id: &str, color: &'static str, lifecycle: LifecyclePatch| SelectorClause {
        selector_id: id.to_string(),
        selector: ItemSelector {
            scope: ItemSelectorScope::Live,
            predicates: vec![ItemPredicate::FieldEq {
                name: "color".to_string(),
                value: Some(Bytes::from_static(color.as_bytes())),
            }],
        },
        predicates: vec![],
        lease_guard: LeaseGuard::RejectActive,
        patch: patch(lifecycle),
    };
    let r = ItemMutationRequest {
        operation: ItemMutationOperation::SelectFirst(vec![
            clause("a", "blue", LifecyclePatch::Purge),
            clause("b", "blue", LifecyclePatch::SetFailed),
        ]),
        ..request(vec![], false)
    };
    let plan = p.plan_item_mutation(&r, &vec![]).ok().unwrap();
    let a = &plan.response.selectors[0];
    let b = &plan.response.selectors[1];
    assert_eq!((a.matched, a.purged, b.matched), (1, 1, 0));
    assert_eq!(plan.response.results.len(), 1);
    assert_eq!(plan.response.results[0].outcome, ItemMutationOutcome::Purged);
    assert_eq!(plan.response.results[0].selector_id.as_deref(), Some("a"));
}

#[test]
fn checked_commands_apply_and_an_outcome_given_twice_does_not() {
    let mut p = two_colors();
    claim(&mut p, 1, "t", 50);
    let once = vec![FinalizeOutcome::new(1, FinalizeKind::Complete)];
    assert!(p.finalize_validate(&once).is_ok());
    let twice =
        vec![FinalizeOutcome::new(1, FinalizeKind::Complete), FinalizeOutcome::new(1, FinalizeKind::Complete)];
    assert!(p.finalize_validate(&twice).is_ok());
    assert!(p.apply_command(&QueueCommand::Finalize(twice)).is_err());
    assert_eq!(p.item_state(1), Some(ItemState::Complete));
    assert!(p.finalize_validate(&once).is_err());

    let offered = p.eligible_candidates(ts(0), 10);
    assert_eq!(offered, vec![2]);
    claim(&mut p, offered[0], "u", 5);
    assert_eq!(p.expired_leases(ts(6)), vec![2]);
    let expired = p.expired_leases(ts(6));
    apply(&mut p, QueueCommand::LeaseExpired(expired));
    assert_eq!(p.item_state(2), Some(ItemState::Pending));
}
