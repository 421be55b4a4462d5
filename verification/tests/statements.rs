use fireweed::sql::async_projection::{
    claim_items, delete_item_gates, delete_item_indexes, delete_items, fence_lease, finalize_backoff, finalize_items,
    lease_expired, reassign_lease, renew_lease, select_purge_items, select_retry_info,
};

#[test]
fn statements_list_one_parameter_per_item() {
    assert_eq!(
        claim_items(2),
        "UPDATE fireweed_items SET lifecycle_state='Leased',lease_token_hash=?,\
         lease_expires_at=?,worker_id=?,retry_count=retry_count+1,item_version=item_version+1,\
         updated_at=?,last_command_sequence=? WHERE tenant_id=? AND queue_id=? \
         AND lifecycle_state='Pending' AND item_id IN (?,?)"
    );
    assert_eq!(
        delete_items(3),
        "DELETE FROM fireweed_items WHERE tenant_id=? AND queue_id=? AND item_id IN (?,?,?)"
    );
    assert_eq!(
        fence_lease(1, true),
        "UPDATE fireweed_items SET fenced=1 WHERE tenant_id=? AND queue_id=? AND item_id IN (?)"
    );
    assert_eq!(
        fence_lease(0, false),
        "UPDATE fireweed_items SET fenced=0 WHERE tenant_id=? AND queue_id=? AND item_id IN ()"
    );
    let others: [fn(usize) -> String; 9] = [
        renew_lease,
        reassign_lease,
        select_retry_info,
        finalize_items,
        finalize_backoff,
        lease_expired,
        select_purge_items,
        delete_item_gates,
        delete_item_indexes,
    ];
    for statement in others {
        assert!(statement(4).ends_with(" AND item_id IN (?,?,?,?)"));
        assert_eq!(statement(4).matches('?').count(), statement(0).matches('?').count() + 4);
    }
}

#[test]
fn fences_and_deletions_differ_in_one_place() {
    for n in 0..6 {
        let on = fence_lease(n, true);
        let off = fence_lease(n, false);
        assert_ne!(on, off);
        assert_eq!(on.replace("fenced=1", "fenced=0"), off);
        assert!(!on.contains("item_version"));
        let items = delete_items(n);
        assert_eq!(items.replace("fireweed_items", "fireweed_item_gates"), delete_item_gates(n));
        assert_eq!(items.replace("fireweed_items", "fireweed_item_index"), delete_item_indexes(n));
        for text in [on, off, items, delete_item_gates(n), delete_item_indexes(n)] {
            assert_eq!(text.matches('?').count(), n + 2, "{text}");
            assert!(text.contains("tenant_id=? AND queue_id=?"));
        }
    }
}
