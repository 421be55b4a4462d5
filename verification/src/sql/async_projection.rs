//! Statements of the minimal projection schema.

use vstd::prelude::*;
use vstd::string::*;

verus! {

pub const SELECT_QUEUE_DEFINITION: &'static str =
    "SELECT definition FROM queues WHERE tenant=?1 AND queue=?2";
pub const INSERT_QUEUE: &'static str =
    "INSERT INTO queues(tenant,queue,definition,paused) VALUES(?1,?2,?3,0)";
pub const INSERT_QUEUE_IF_ABSENT: &'static str = "INSERT INTO queues(tenant,queue,definition,paused) \
    VALUES(?1,?2,?3,0) ON CONFLICT(tenant,queue) DO NOTHING";
pub const INSERT_CURSOR: &'static str = "INSERT INTO relational_cursor(tenant,queue,next_seq,\
    next_item_seq,assignment_epoch) VALUES(?1,?2,0,0,0)";
pub const INSERT_CURSOR_IF_ABSENT: &'static str = "INSERT INTO relational_cursor(tenant,queue,next_seq,\
    next_item_seq,assignment_epoch) VALUES(?1,?2,0,0,0) \
    ON CONFLICT(tenant,queue) DO NOTHING";
pub const SELECT_CURSOR: &'static str = "SELECT next_seq,assignment_epoch FROM relational_cursor \
    WHERE tenant=?1 AND queue=?2";
pub const SELECT_CURSOR_STATE: &'static str = "SELECT next_seq,next_item_seq,assignment_epoch FROM relational_cursor \
     WHERE tenant=?1 AND queue=?2";
pub const SELECT_NEXT_ITEM_SEQUENCE: &'static str = "SELECT next_item_seq FROM relational_cursor \
    WHERE tenant=?1 AND queue=?2";
pub const UPDATE_NEXT_ITEM_SEQUENCE: &'static str = "UPDATE relational_cursor SET next_item_seq=?3 \
    WHERE tenant=?1 AND queue=?2";
pub const UPDATE_CURSOR: &'static str = "UPDATE relational_cursor SET next_seq=?3, \
    assignment_epoch=CASE WHEN assignment_epoch<?4 THEN ?4 ELSE assignment_epoch END \
    WHERE tenant=?1 AND queue=?2";
pub const INSERT_ITEM: &'static str = "INSERT INTO fireweed_items \
    (tenant_id,queue_id,item_id,client_item_key,lifecycle_state,priority,priority_sort,\
     not_before,eligible_since,group_key,cohort_size,recurrence_until,payload,fields,metadata,\
     entity_document,retry_count,item_version,lease_token_hash,lease_expires_at,worker_id,\
     last_command_sequence,created_at,updated_at,terminal_at,terminal_command_epoch,fenced,\
     superseded,max_attempts,created_seq) VALUES \
    (?1,?2,?3,?4,'Pending',?5,?6,?7,?8,?9,?10,NULL,?11,?12,?13,?14,0,1,NULL,NULL,NULL,\
     ?15,?16,?16,NULL,NULL,0,0,?17,?18)";
pub const SELECT_ELIGIBLE: &'static str = "SELECT item_id FROM fireweed_items \
    WHERE tenant_id=?1 AND queue_id=?2 AND lifecycle_state='Pending' AND superseded=0 \
    AND cohort_size IS NULL AND (not_before IS NULL OR not_before<=?3) \
    AND eligible_since IS NOT NULL AND NOT EXISTS (SELECT 1 FROM fireweed_item_gates ig \
    JOIN fireweed_gate_state gs ON gs.tenant_id=ig.tenant_id AND gs.queue_id=ig.queue_id \
    AND gs.gate_key=ig.gate_key WHERE ig.tenant_id=fireweed_items.tenant_id \
    AND ig.queue_id=fireweed_items.queue_id AND ig.item_id=fireweed_items.item_id) \
    ORDER BY priority_sort,created_seq LIMIT ?4";
/// FIFO claim scan: walk rowid after a process-local hint. For a queue without blocked gates, so
/// without the anti-join of the scan above.
pub const SELECT_ELIGIBLE_FIFO_ROWID: &'static str = "SELECT item_id FROM fireweed_items NOT INDEXED \
    WHERE tenant_id=?1 AND queue_id=?2 AND lifecycle_state='Pending' AND superseded=0 \
    AND cohort_size IS NULL AND (not_before IS NULL OR not_before<=?3) \
    AND eligible_since IS NOT NULL AND rowid>=?5 ORDER BY rowid LIMIT ?4";
pub const SELECT_ELIGIBLE_NO_GATES: &'static str = "SELECT item_id FROM fireweed_items \
    WHERE tenant_id=?1 AND queue_id=?2 AND lifecycle_state='Pending' AND superseded=0 \
    AND cohort_size IS NULL AND (not_before IS NULL OR not_before<=?3) \
    AND eligible_since IS NOT NULL ORDER BY priority_sort, created_seq LIMIT ?4";
pub const SELECT_QUEUE_PAUSED: &'static str = "SELECT paused FROM queues WHERE tenant=?1 AND queue=?2";
pub const SELECT_HAS_BLOCKED_GATES: &'static str =
    "SELECT 1 FROM fireweed_gate_state WHERE tenant_id=?1 AND queue_id=?2 LIMIT 1";
pub const SELECT_ITEM_CLAIM_FILTERABLE: &'static str = "SELECT item_id FROM fireweed_items \
    WHERE tenant_id=?1 AND queue_id=?2 AND lifecycle_state='Pending' AND superseded=0 \
    AND cohort_size IS NULL AND (not_before IS NULL OR not_before<=?3) \
    AND eligible_since IS NOT NULL AND NOT EXISTS (SELECT 1 FROM fireweed_item_gates ig \
    JOIN fireweed_gate_state gs ON gs.tenant_id=ig.tenant_id AND gs.queue_id=ig.queue_id \
    AND gs.gate_key=ig.gate_key WHERE ig.tenant_id=fireweed_items.tenant_id \
    AND ig.queue_id=fireweed_items.queue_id AND ig.item_id=fireweed_items.item_id) \
    AND (?5 IS NULL OR group_key=?5) \
    AND NOT EXISTS (SELECT 1 FROM json_each(?6) wanted \
      WHERE NOT EXISTS (SELECT 1 FROM json_each(fireweed_items.metadata) actual \
        WHERE actual.key=wanted.key AND actual.value=wanted.value \
          AND actual.type=wanted.type)) \
    ORDER BY priority_sort,created_seq LIMIT ?4";
pub const INSERT_ID_HIGH_WATER: &'static str = "INSERT INTO fireweed_id_high_water(tenant,queue,item_id) \
    VALUES(?1,?2,?3) ON CONFLICT(tenant,queue) DO UPDATE SET item_id=excluded.item_id \
    WHERE length(excluded.item_id)>length(fireweed_id_high_water.item_id) \
       OR (length(excluded.item_id)=length(fireweed_id_high_water.item_id) \
           AND excluded.item_id>fireweed_id_high_water.item_id)";
pub const SELECT_ID_HIGH_WATER: &'static str =
    "SELECT item_id FROM fireweed_id_high_water WHERE tenant=?1 AND queue=?2";
pub const EXPIRED_LEASES_BOUNDED: &'static str = "SELECT item_id FROM fireweed_items \
    WHERE tenant_id=?1 AND queue_id=?2 AND lifecycle_state='Leased' AND cohort_size IS NULL \
    AND fenced=0 AND superseded=0 AND lease_expires_at IS NOT NULL AND lease_expires_at<?3 \
    ORDER BY item_id LIMIT ?4";
pub const SELECT_ELIGIBLE_FILTERABLE: &'static str = "SELECT item_id,group_key,metadata FROM fireweed_items \
    WHERE tenant_id=?1 AND queue_id=?2 AND lifecycle_state='Pending' AND superseded=0 \
    AND cohort_size IS NULL AND (not_before IS NULL OR not_before<=?3) \
    AND eligible_since IS NOT NULL AND NOT EXISTS (SELECT 1 FROM fireweed_item_gates ig \
    JOIN fireweed_gate_state gs ON gs.tenant_id=ig.tenant_id AND gs.queue_id=ig.queue_id \
    AND gs.gate_key=ig.gate_key WHERE ig.tenant_id=fireweed_items.tenant_id \
    AND ig.queue_id=fireweed_items.queue_id AND ig.item_id=fireweed_items.item_id) \
    ORDER BY priority_sort,created_seq LIMIT ?4 OFFSET ?5";
pub const SELECT_ITEM_STATE: &'static str = "SELECT lifecycle_state FROM fireweed_items \
    WHERE tenant_id=?1 AND queue_id=?2 AND item_id=?3";
pub const SELECT_ITEM_VERSION: &'static str = "SELECT item_version FROM fireweed_items \
    WHERE tenant_id=?1 AND queue_id=?2 AND item_id=?3";
pub const SELECT_CLAIMED_ITEM: &'static str = "SELECT client_item_key,item_version,priority,group_key,\
    not_before,lease_expires_at,retry_count,payload,fields,metadata FROM fireweed_items \
    WHERE tenant_id=?1 AND queue_id=?2 AND lifecycle_state='Leased' AND item_id=?3";
pub const SELECT_ITEM_GATES: &'static str = "SELECT gate_key FROM fireweed_item_gates \
    WHERE tenant_id=?1 AND queue_id=?2 AND item_id=?3 ORDER BY gate_key";
pub const SELECT_DEFINITIONS: &'static str = "SELECT definition FROM queues ORDER BY tenant,queue";
/// Point-get one opaque non-work side record by key (recovery/audit read).
pub const SELECT_SIDE_RECORD: &'static str = "SELECT payload FROM fireweed_side_records \
    WHERE tenant_id=?1 AND queue_id=?2 AND key=?3";
/// Key-ascending prefix seek over side records: `?3` is the start key (a resume cursor or the
/// prefix itself) and `?4` is `page_size + 1`, so the overflow row becomes the next cursor.
pub const SELECT_SIDE_RECORDS_BY_PREFIX: &'static str = "SELECT key,payload FROM fireweed_side_records \
    WHERE tenant_id=?1 AND queue_id=?2 AND key>=?3 ORDER BY key ASC LIMIT ?4";
/// Retained whole-body commit outcome for one `request_id` (recovery/explain read). Ignores the
/// body fingerprint: the reader has only the id.
pub const SELECT_COMMIT_RECOVERY: &'static str = "SELECT response_payload \
    FROM fireweed_request_idempotency WHERE tenant_id=?1 AND queue_id=?2 \
    AND operation='commit' AND request_id=?3";
pub const SELECT_CLAIM_BY_QUERY_REPLAYS: &'static str = "SELECT request_id,response_payload \
    FROM fireweed_request_idempotency WHERE tenant_id=?1 AND queue_id=?2 \
    AND operation='claim_by_query'";
pub const EXTEND_CLAIM_BY_QUERY_REPLAY: &'static str = "UPDATE fireweed_request_idempotency \
    SET expires_at=max(expires_at,?4) WHERE tenant_id=?1 AND queue_id=?2 \
    AND operation='claim_by_query' AND request_id=?3";
pub const INSERT_ITEM_GATE: &'static str = "INSERT INTO fireweed_item_gates \
    (tenant_id,queue_id,item_id,gate_key) VALUES(?1,?2,?3,?4) \
    ON CONFLICT(tenant_id,queue_id,item_id,gate_key) DO NOTHING";
pub const SELECT_LIVE_FIELDS: &'static str = "SELECT fields FROM fireweed_items WHERE tenant_id=?1 \
    AND queue_id=?2 AND item_id=?3 AND lifecycle_state IN ('Pending','Leased') \
    AND superseded=0 AND fenced=0";
pub const UPDATE_FIELDS_KEEP_PAYLOAD: &'static str = "UPDATE fireweed_items SET fields=?4,\
    item_version=item_version+1,updated_at=?5,last_command_sequence=?6 WHERE tenant_id=?1 \
    AND queue_id=?2 AND item_id=?3 AND lifecycle_state IN ('Pending','Leased') \
    AND superseded=0 AND fenced=0";
pub const UPDATE_FIELDS_SET_PAYLOAD: &'static str = "UPDATE fireweed_items SET fields=?4,payload=?5,\
    item_version=item_version+1,updated_at=?6,last_command_sequence=?7 WHERE tenant_id=?1 \
    AND queue_id=?2 AND item_id=?3 AND lifecycle_state IN ('Pending','Leased') \
    AND superseded=0 AND fenced=0";
pub const UPDATE_ENTITY_DOCUMENT: &'static str = "UPDATE fireweed_items SET entity_document=?4,index_fields=?5 \
    WHERE tenant_id=?1 AND queue_id=?2 AND item_id=?3";
pub const SUPERSEDE_ITEM: &'static str = "UPDATE fireweed_items SET superseded=1,updated_at=?4,\
    last_command_sequence=?5 WHERE tenant_id=?1 AND queue_id=?2 AND item_id=?3";
pub const PAUSE_QUEUE: &'static str =
    "UPDATE queues SET paused=1,pause_drain_intake=?3 WHERE tenant=?1 AND queue=?2";
pub const RESUME_QUEUE: &'static str =
    "UPDATE queues SET paused=0,pause_drain_intake=0 WHERE tenant=?1 AND queue=?2";
pub const UPSERT_KEY_RETENTION: &'static str = "INSERT INTO fireweed_item_key_retention \
    (tenant_id,queue_id,client_item_key,item_id,expires_at) VALUES(?1,?2,?3,?4,?5) \
    ON CONFLICT(tenant_id,queue_id,client_item_key) DO UPDATE SET \
    item_id=excluded.item_id,expires_at=excluded.expires_at";
pub const SET_GATE_BLOCKED: &'static str = "INSERT INTO fireweed_gate_state \
    (tenant_id,queue_id,gate_key) VALUES(?1,?2,?3) \
    ON CONFLICT(tenant_id,queue_id,gate_key) DO NOTHING";
pub const SET_GATE_UNBLOCKED: &'static str = "DELETE FROM fireweed_gate_state \
    WHERE tenant_id=?1 AND queue_id=?2 AND gate_key=?3";


/// `n` unnumbered parameters, set apart by commas.
pub open spec fn holes(n: nat) -> Seq<char>
    decreases n,
{
    if n == 0 {
        Seq::empty()
    } else if n == 1 {
        seq!['?']
    } else {
        holes((n - 1) as nat) + seq![',', '?']
    }
}

/// How often a character stands in a text.
pub open spec fn occurrences(s: Seq<char>, c: char) -> nat
    decreases s.len(),
{
    if s.len() == 0 {
        0
    } else {
        occurrences(s.drop_last(), c) + if s.last() == c {
            1nat
        } else {
            0
        }
    }
}

/// A statement for `n` items has a place for each of them.
pub proof fn law_one_hole_per_item(n: nat)
    ensures
        occurrences(holes(n), '?') == n,
    decreases n,
{
    let s = holes(n);
    reveal_with_fuel(occurrences, 3);
    if n == 1 {
        assert(s.drop_last() =~= Seq::<char>::empty());
    } else if n > 1 {
        law_one_hole_per_item((n - 1) as nat);
        let t = holes((n - 1) as nat);
        assert(s.drop_last() =~= t.push(','));
        assert(s.last() == '?' && t.push(',').last() == ',');
        assert(s.drop_last().drop_last() =~= t);
    }
}

/// The list of a statement for `n` items, in brackets.
pub open spec fn item_list(n: nat) -> Seq<char> {
    seq!['('] + holes(n) + seq![')']
}

fn push_item_list(out: &mut String, n: usize)
    ensures
        final(out)@ == old(out)@ + item_list(n as nat),
{
    let ghost start = out@;
    out.push('(');
    let mut i: usize = 0;
    assert(out@ =~= start.push('(') + holes(0));
    while i < n
        invariant
            i <= n,
            out@ == start.push('(') + holes(i as nat),
        decreases n - i,
    {
        let ghost before = out@;
        if i > 0 {
            out.push(',');
        }
        out.push('?');
        i = i + 1;
        proof {
            if i > 1 {
                assert(holes(i as nat) == holes((i - 1) as nat) + seq![',', '?']);
            }
            assert(out@ =~= start.push('(') + holes(i as nat));
        }
    }
    out.push(')');
    assert(out@ =~= start + item_list(n as nat));
}

/// A statement that ends in the list of its items.
pub fn with_item_ids(prefix: &str, placeholders: usize) -> (r: String)
    ensures
        r@ == prefix@.push(' ') + item_list(placeholders as nat),
{
    let mut out = prefix.to_owned();
    out.push(' ');
    push_item_list(&mut out, placeholders);
    out
}

/// Lease the pending items among those named.
pub const CLAIM_ITEMS: &'static str = "UPDATE fireweed_items SET lifecycle_state='Leased',lease_token_hash=?,\
        lease_expires_at=?,worker_id=?,retry_count=retry_count+1,item_version=item_version+1,\
        updated_at=?,last_command_sequence=? WHERE tenant_id=? AND queue_id=? \
        AND lifecycle_state='Pending' AND item_id IN";

/// Lease the pending items among those named.
pub fn claim_items(placeholders: usize) -> (r: String)
    ensures
        r@ == CLAIM_ITEMS@.push(' ') + item_list(placeholders as nat),
{
    with_item_ids(CLAIM_ITEMS, placeholders)
}

pub const RENEW_LEASE: &'static str = "UPDATE fireweed_items SET lease_expires_at=?,item_version=item_version+1,\
        updated_at=?,last_command_sequence=? WHERE tenant_id=? AND queue_id=? AND item_id IN";

/// Move the expiry of the named leases.
pub fn renew_lease(placeholders: usize) -> (r: String)
    ensures
        r@ == RENEW_LEASE@.push(' ') + item_list(placeholders as nat),
{
    with_item_ids(RENEW_LEASE, placeholders)
}

pub const REASSIGN_LEASE: &'static str = "UPDATE fireweed_items SET lease_token_hash=?,lease_expires_at=?,\
        retry_count=retry_count+1,item_version=item_version+1,updated_at=?,\
        last_command_sequence=? WHERE tenant_id=? AND queue_id=? AND item_id IN";

/// Hand the named leases to a new holder, which counts as an attempt.
pub fn reassign_lease(placeholders: usize) -> (r: String)
    ensures
        r@ == REASSIGN_LEASE@.push(' ') + item_list(placeholders as nat),
{
    with_item_ids(REASSIGN_LEASE, placeholders)
}

pub const SELECT_RETRY_INFO: &'static str = "SELECT item_id,retry_count,max_attempts FROM fireweed_items \
        WHERE tenant_id=? AND queue_id=? AND item_id IN";

/// Read how often each named item was tried, and how often it may be.
pub fn select_retry_info(placeholders: usize) -> (r: String)
    ensures
        r@ == SELECT_RETRY_INFO@.push(' ') + item_list(placeholders as nat),
{
    with_item_ids(SELECT_RETRY_INFO, placeholders)
}

pub const FINALIZE_ITEMS: &'static str = "UPDATE fireweed_items SET lifecycle_state=?,lease_token_hash=NULL,\
        lease_expires_at=NULL,worker_id=NULL,fenced=0,item_version=item_version+1,\
        retry_count=CASE WHEN ? THEN 0 ELSE retry_count END,terminal_at=?,\
        terminal_command_epoch=?,updated_at=?,last_command_sequence=? \
        WHERE tenant_id=? AND queue_id=? AND item_id IN";

/// Give the named items their outcome and drop their leases.
pub fn finalize_items(placeholders: usize) -> (r: String)
    ensures
        r@ == FINALIZE_ITEMS@.push(' ') + item_list(placeholders as nat),
{
    with_item_ids(FINALIZE_ITEMS, placeholders)
}

pub const FINALIZE_BACKOFF: &'static str = "UPDATE fireweed_items SET not_before=?,eligible_since=? \
        WHERE tenant_id=? AND queue_id=? AND item_id IN";

/// Set when the named items may run again.
pub fn finalize_backoff(placeholders: usize) -> (r: String)
    ensures
        r@ == FINALIZE_BACKOFF@.push(' ') + item_list(placeholders as nat),
{
    with_item_ids(FINALIZE_BACKOFF, placeholders)
}

pub const LEASE_EXPIRED: &'static str = "UPDATE fireweed_items SET lifecycle_state='Pending',lease_token_hash=NULL,\
        lease_expires_at=NULL,worker_id=NULL,item_version=item_version+1,updated_at=?,\
        last_command_sequence=? WHERE tenant_id=? AND queue_id=? AND item_id IN";

/// Return the named items to the pending state.
pub fn lease_expired(placeholders: usize) -> (r: String)
    ensures
        r@ == LEASE_EXPIRED@.push(' ') + item_list(placeholders as nat),
{
    with_item_ids(LEASE_EXPIRED, placeholders)
}

pub const FENCE_LEASE: &'static str = "UPDATE fireweed_items SET fenced=1 WHERE tenant_id=? AND queue_id=? AND item_id IN";

pub const UNFENCE_LEASE: &'static str = "UPDATE fireweed_items SET fenced=0 WHERE tenant_id=? AND queue_id=? AND item_id IN";

/// Fence the named leases, or lift the fence.
pub fn fence_lease(placeholders: usize, fenced: bool) -> (r: String)
    ensures
        r@ == (if fenced {
            FENCE_LEASE@
        } else {
            UNFENCE_LEASE@
        }).push(' ') + item_list(placeholders as nat),
{
    if fenced {
        with_item_ids(FENCE_LEASE, placeholders)
    } else {
        with_item_ids(UNFENCE_LEASE, placeholders)
    }
}

pub const SELECT_PURGE_ITEMS: &'static str = "SELECT item_id,client_item_key,lifecycle_state FROM fireweed_items \
        WHERE tenant_id=? AND queue_id=? AND item_id IN";

/// Read the keys and states of the named items.
pub fn select_purge_items(placeholders: usize) -> (r: String)
    ensures
        r@ == SELECT_PURGE_ITEMS@.push(' ') + item_list(placeholders as nat),
{
    with_item_ids(SELECT_PURGE_ITEMS, placeholders)
}

pub const DELETE_ITEMS: &'static str = "DELETE FROM fireweed_items WHERE tenant_id=? AND queue_id=? AND item_id IN";

/// Delete the named items.
pub fn delete_items(placeholders: usize) -> (r: String)
    ensures
        r@ == DELETE_ITEMS@.push(' ') + item_list(placeholders as nat),
{
    with_item_ids(DELETE_ITEMS, placeholders)
}

pub const DELETE_ITEM_GATES: &'static str = "DELETE FROM fireweed_item_gates WHERE tenant_id=? AND queue_id=? AND item_id IN";

/// Delete the gates of the named items.
pub fn delete_item_gates(placeholders: usize) -> (r: String)
    ensures
        r@ == DELETE_ITEM_GATES@.push(' ') + item_list(placeholders as nat),
{
    with_item_ids(DELETE_ITEM_GATES, placeholders)
}

pub const DELETE_ITEM_INDEXES: &'static str = "DELETE FROM fireweed_item_index WHERE tenant_id=? AND queue_id=? AND item_id IN";

/// Delete the index rows of the named items.
pub fn delete_item_indexes(placeholders: usize) -> (r: String)
    ensures
        r@ == DELETE_ITEM_INDEXES@.push(' ') + item_list(placeholders as nat),
{
    with_item_ids(DELETE_ITEM_INDEXES, placeholders)
}

/// What stands in two texts after each other stands in either.
proof fn lemma_occurrences_joined(a: Seq<char>, b: Seq<char>, c: char)
    ensures
        occurrences(a + b, c) == occurrences(a, c) + occurrences(b, c),
    decreases b.len(),
{
    if b.len() == 0 {
        assert(a + b =~= a);
    } else {
        assert((a + b).drop_last() =~= a + b.drop_last());
        lemma_occurrences_joined(a, b.drop_last(), c);
    }
}

/// Restricts a statement to the named items of one queue.
pub open spec fn of_items(n: nat) -> Seq<char> {
    " WHERE tenant_id=? AND queue_id=? AND item_id IN "@ + item_list(n)
}

proof fn lemma_of_items(n: nat)
    ensures
        occurrences(of_items(n), '?') == n + 2,
{
    let scope = " WHERE tenant_id=? AND queue_id=? AND item_id IN "@;
    assert(occurrences(scope, '?') == 2) by {
        reveal_strlit(" WHERE tenant_id=? AND queue_id=? AND item_id IN ");
        reveal_with_fuel(occurrences, 52);
    }
    assert(occurrences(seq!['('], '?') == 0 && occurrences(seq![')'], '?') == 0) by {
        reveal_with_fuel(occurrences, 3);
    }
    law_one_hole_per_item(n);
    lemma_occurrences_joined(seq!['('], holes(n), '?');
    lemma_occurrences_joined(seq!['('] + holes(n), seq![')'], '?');
    lemma_occurrences_joined(scope, item_list(n), '?');
}

/// The statement that fences leases and the one that lifts the fence assign the fence and nothing else.
/// They differ in the value alone, name the queue and the items, and have a place for each item beside
/// those for tenant and queue.
pub proof fn law_fences_change_nothing_else(n: nat)
    ensures
        ({
            let on = FENCE_LEASE@.push(' ') + item_list(n);
            let off = UNFENCE_LEASE@.push(' ') + item_list(n);
            &&& on == "UPDATE fireweed_items SET "@ + "fenced=1"@ + of_items(n)
            &&& off == "UPDATE fireweed_items SET "@ + "fenced=0"@ + of_items(n)
            &&& on != off
            &&& occurrences(on, '?') == n + 2
            &&& occurrences(off, '?') == n + 2
        }),
{
    let on = FENCE_LEASE@.push(' ') + item_list(n);
    let off = UNFENCE_LEASE@.push(' ') + item_list(n);
    let head = "UPDATE fireweed_items SET "@;
    let scope = " WHERE tenant_id=? AND queue_id=? AND item_id IN "@;
    reveal_strlit("UPDATE fireweed_items SET fenced=1 WHERE tenant_id=? AND queue_id=? AND item_id IN");
    reveal_strlit("UPDATE fireweed_items SET fenced=0 WHERE tenant_id=? AND queue_id=? AND item_id IN");
    reveal_strlit("UPDATE fireweed_items SET ");
    reveal_strlit("fenced=1");
    reveal_strlit("fenced=0");
    reveal_strlit(" WHERE tenant_id=? AND queue_id=? AND item_id IN ");
    assert(FENCE_LEASE@.push(' ') =~= head + "fenced=1"@ + scope);
    assert(UNFENCE_LEASE@.push(' ') =~= head + "fenced=0"@ + scope);
    assert(on =~= head + "fenced=1"@ + of_items(n));
    assert(off =~= head + "fenced=0"@ + of_items(n));
    assert(on[33] != off[33]);
    assert(occurrences(head, '?') == 0 && occurrences("fenced=1"@, '?') == 0 && occurrences(
        "fenced=0"@,
        '?',
    ) == 0) by {
        reveal_with_fuel(occurrences, 28);
    }
    lemma_of_items(n);
    lemma_occurrences_joined(head, "fenced=1"@, '?');
    lemma_occurrences_joined(head, "fenced=0"@, '?');
    lemma_occurrences_joined(head + "fenced=1"@, of_items(n), '?');
    lemma_occurrences_joined(head + "fenced=0"@, of_items(n), '?');
}

/// The statement that deletes the named items of one queue from a table.
pub open spec fn deletion(table: Seq<char>, n: nat) -> Seq<char> {
    "DELETE FROM "@ + table + of_items(n)
}

proof fn lemma_deletion(table: Seq<char>, n: nat)
    requires
        occurrences(table, '?') == 0,
    ensures
        occurrences(deletion(table, n), '?') == n + 2,
{
    assert(occurrences("DELETE FROM "@, '?') == 0) by {
        reveal_strlit("DELETE FROM ");
        reveal_with_fuel(occurrences, 14);
    }
    lemma_of_items(n);
    lemma_occurrences_joined("DELETE FROM "@, table, '?');
    lemma_occurrences_joined("DELETE FROM "@ + table, of_items(n), '?');
}

/// Items, their gates and their index rows are deleted alike: the statements differ in the table alone,
/// name the queue and the items, and have a place for each item beside those for tenant and queue.
pub proof fn law_deletions_differ_in_the_table(n: nat)
    ensures
        DELETE_ITEMS@.push(' ') + item_list(n) == deletion("fireweed_items"@, n),
        DELETE_ITEM_GATES@.push(' ') + item_list(n) == deletion("fireweed_item_gates"@, n),
        DELETE_ITEM_INDEXES@.push(' ') + item_list(n) == deletion("fireweed_item_index"@, n),
        occurrences(deletion("fireweed_items"@, n), '?') == n + 2,
        occurrences(deletion("fireweed_item_gates"@, n), '?') == n + 2,
        occurrences(deletion("fireweed_item_index"@, n), '?') == n + 2,
{
    let scope = " WHERE tenant_id=? AND queue_id=? AND item_id IN "@;
    reveal_strlit("DELETE FROM ");
    reveal_strlit("fireweed_items");
    reveal_strlit("fireweed_item_gates");
    reveal_strlit("fireweed_item_index");
    reveal_strlit(" WHERE tenant_id=? AND queue_id=? AND item_id IN ");
    reveal_strlit("DELETE FROM fireweed_items WHERE tenant_id=? AND queue_id=? AND item_id IN");
    reveal_strlit("DELETE FROM fireweed_item_gates WHERE tenant_id=? AND queue_id=? AND item_id IN");
    reveal_strlit("DELETE FROM fireweed_item_index WHERE tenant_id=? AND queue_id=? AND item_id IN");
    assert(DELETE_ITEMS@.push(' ') =~= "DELETE FROM "@ + "fireweed_items"@ + scope);
    assert(DELETE_ITEM_GATES@.push(' ') =~= "DELETE FROM "@ + "fireweed_item_gates"@ + scope);
    assert(DELETE_ITEM_INDEXES@.push(' ') =~= "DELETE FROM "@ + "fireweed_item_index"@ + scope);
    assert(DELETE_ITEMS@.push(' ') + item_list(n) =~= deletion("fireweed_items"@, n));
    assert(DELETE_ITEM_GATES@.push(' ') + item_list(n) =~= deletion("fireweed_item_gates"@, n));
    assert(DELETE_ITEM_INDEXES@.push(' ') + item_list(n) =~= deletion("fireweed_item_index"@, n));
    assert(occurrences("fireweed_items"@, '?') == 0 && occurrences("fireweed_item_gates"@, '?') == 0
        && occurrences("fireweed_item_index"@, '?') == 0) by {
        reveal_with_fuel(occurrences, 21);
    }
    lemma_deletion("fireweed_items"@, n);
    lemma_deletion("fireweed_item_gates"@, n);
    lemma_deletion("fireweed_item_index"@, n);
}

} // verus!
