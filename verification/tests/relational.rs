use fireweed::relational::claim::{class_s_claim, ClassSClaimRequest, INSERT_CLAIM_OUTBOX, SELECT_CLASS_S_DUE};
use fireweed::relational::exec::{RelSession, RelTx};
use fireweed::relational::value::{RelRow, RelValue};
use fireweed::types::{EngineError, EngineResult};
use std::cell::RefCell;

#[derive(Clone)]
struct Item {
    item_id: String,
    client_item_key: String,
    payload: Vec<u8>,
    item_version: i64,
    retry_count: i64,
    created_seq: i64,
    leased: bool,
}

struct MemTx {
    items: RefCell<Vec<Item>>,
    outbox: RefCell<Vec<String>>,
    short: bool,
}

impl MemTx {
    fn with_pending(n: i64) -> Self {
        let items = (1..=n)
            .map(|seq| Item {
                item_id: format!("item-{seq}"),
                client_item_key: format!("key-{seq}"),
                payload: vec![0xCA, 0xFE],
                item_version: 1,
                retry_count: 0,
                created_seq: seq,
                leased: false,
            })
            .collect();
        MemTx { items: RefCell::new(items), outbox: RefCell::new(Vec::new()), short: false }
    }
}

impl RelTx for MemTx {
    fn execute(&self, sql: &str, params: &Vec<RelValue>) -> EngineResult<usize> {
        if sql.starts_with("UPDATE fireweed_items SET lifecycle_state='Leased'") {
            let ids: Vec<String> = params
                .iter()
                .skip(6)
                .filter_map(|value| match value {
                    RelValue::Text(text) => Some(text.clone()),
                    _ => None,
                })
                .collect();
            let mut changed = 0;
            for item in self.items.borrow_mut().iter_mut() {
                if ids.contains(&item.item_id) && !item.leased {
                    item.leased = true;
                    item.item_version += 1;
                    item.retry_count += 1;
                    changed += 1;
                }
            }
            return Ok(if self.short { changed - 1 } else { changed });
        }
        if sql == INSERT_CLAIM_OUTBOX {
            let outbox_id = match &params[2] {
                RelValue::Text(text) => text.clone(),
                _ => return Err(EngineError::Storage("outbox id".to_string())),
            };
            self.outbox.borrow_mut().push(outbox_id);
            return Ok(1);
        }
        Err(EngineError::Storage(format!("unexpected execute: {sql}")))
    }

    fn query(&self, sql: &str, params: &Vec<RelValue>) -> EngineResult<Vec<RelRow>> {
        if sql != SELECT_CLASS_S_DUE {
            return Err(EngineError::Storage(format!("unexpected query: {sql}")));
        }
        let limit = match params.get(3) {
            Some(RelValue::Integer(limit)) => *limit,
            _ => 0,
        };
        let mut pending: Vec<Item> =
            self.items.borrow().iter().filter(|item| !item.leased).cloned().collect();
        pending.sort_by_key(|item| item.created_seq);
        Ok(pending
            .into_iter()
            .take(limit as usize)
            .map(|item| {
                RelRow(vec![
                    RelValue::Text(item.item_id),
                    RelValue::Text(item.client_item_key),
                    RelValue::Blob(item.payload),
                    RelValue::Integer(item.item_version),
                    RelValue::Integer(item.retry_count),
                ])
            })
            .collect())
    }
}

fn claim_req(token: &str, outbox_id: &str, limit: i64) -> ClassSClaimRequest {
    ClassSClaimRequest {
        tenant_id: "t".to_string(),
        queue_id: "q".to_string(),
        now_nanos: 10,
        limit,
        lease_token: token.to_string(),
        lease_expires_at: 1_000,
        outbox_id: outbox_id.to_string(),
        request_id: None,
        request_fingerprint: None,
        worker_id: Some("worker-a".to_string()),
        claim_unit: "item".to_string(),
        cohort_id: None,
    }
}

#[test]
fn class_s_sequential_claims_are_disjoint_and_write_outbox() {
    let tx = MemTx::with_pending(5);
    let mut session = RelSession::new(&tx);
    let first = class_s_claim(&mut session, &claim_req("token-a", "outbox-1", 2)).ok().unwrap();
    let second = class_s_claim(&mut session, &claim_req("token-b", "outbox-2", 2)).ok().unwrap();

    let first_ids: Vec<&str> = first.items.iter().map(|i| i.item_id.as_str()).collect();
    let second_ids: Vec<&str> = second.items.iter().map(|i| i.item_id.as_str()).collect();
    assert_eq!(first_ids, ["item-1", "item-2"]);
    assert_eq!(second_ids, ["item-3", "item-4"]);
    assert!(
        first_ids.iter().all(|id| !second_ids.contains(id)),
        "sequential Class S claims must be disjoint"
    );
    assert_eq!(first.items[0].payload.as_deref(), Some(&[0xCA, 0xFE][..]));
    assert_eq!(first.items[0].item_version, 2);
    assert_eq!(first.items[0].retry_count, 1);
    assert_eq!(tx.outbox.borrow().as_slice(), ["outbox-1", "outbox-2"]);
    let leased = tx.items.borrow().iter().filter(|item| item.leased).count();
    let pending = tx.items.borrow().iter().filter(|item| !item.leased).count();
    assert_eq!((leased, pending), (4, 1));
}

#[test]
fn a_claim_that_leases_fewer_rows_than_it_read_fails() {
    let tx = MemTx { short: true, ..MemTx::with_pending(3) };
    let mut session = RelSession::new(&tx);
    let r = class_s_claim(&mut session, &claim_req("token-a", "outbox-1", 2));
    assert!(r.is_err());
    assert!(tx.outbox.borrow().is_empty());
}

#[test]
fn cells_read_as_what_they_hold() {
    let row = RelRow(vec![
        RelValue::Text("a".to_string()),
        RelValue::Integer(7),
        RelValue::Null,
        RelValue::Blob(vec![1]),
    ]);
    assert_eq!(row.get::<String>(0).ok(), Some("a".to_string()));
    assert_eq!(row.get::<i64>(1).ok(), Some(7));
    assert_eq!(row.get::<Option<i64>>(2).ok(), Some(None));
    assert_eq!(row.get::<Vec<u8>>(3).ok(), Some(vec![1]));
    assert!(row.get::<i64>(0).is_err());
    assert!(row.get::<String>(9).is_err());
}

#[test]
fn a_claim_of_nothing_writes_nothing() {
    let tx = MemTx::with_pending(0);
    let mut session = RelSession::new(&tx);
    let claimed = class_s_claim(&mut session, &claim_req("token-a", "outbox-1", 2)).ok().unwrap();
    assert!(claimed.items.is_empty());
    assert!(tx.outbox.borrow().is_empty());
}
