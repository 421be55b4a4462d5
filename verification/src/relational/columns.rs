//! Which parameter each column of a statement takes, by the statement's own text.

use crate::relational::finalize::{DELETE_LEASE_BEARERS, FINALIZE_RANGE, FINALIZE_SET, RESCHEDULE};
use crate::relational::lease_commands::{CLAIM_COHORT, CLAIM_COHORT_ITEMS, CLAIM_LISTED_END, CLAIM_RANGE, EXPIRE_COHORT, EXPIRE_ITEMS, FAIL_ITEMS, REASSIGN_ITEMS, RENEW_ITEMS};
use crate::relational::leases::{FUSE_ITEMS, FUSE_RANGE};
use crate::relational::lists::listed;
use crate::relational::told::{binds, lemma_binds_listed, lemma_takes_behind, marks, takes_at};
use crate::relational::value::CellV;
use vstd::prelude::*;
use vstd::string::*;

verus! {

/// Where the columns of `CLAIM_RANGE` stand.
proof fn lemma_claim_range_columns()
    ensures
        takes_at(CLAIM_RANGE@, "lease_token_hash"@, 52, 0),
        takes_at(CLAIM_RANGE@, "lease_expires_at"@, 73, 1),
        takes_at(CLAIM_RANGE@, "worker_id"@, 94, 2),
        takes_at(CLAIM_RANGE@, "updated_at"@, 164, 3),
        takes_at(CLAIM_RANGE@, "last_command_sequence"@, 179, 4),
        takes_at(CLAIM_RANGE@, "tenant_id"@, 210, 5),
        takes_at(CLAIM_RANGE@, "queue_id"@, 227, 6),
        CLAIM_RANGE@.len() == 313,
{
    let sql = CLAIM_RANGE@;
    reveal_strlit(
        "UPDATE fireweed_items SET lifecycle_state='Leased', lease_token_hash=?1, lease_expires_at=?2, worker_id=?3, retry_count=retry_count+1, item_version=item_version+1, updated_at=?4, last_command_sequence=?5 WHERE tenant_id=?6 AND queue_id=?7 AND rowid BETWEEN ?8 AND ?9 AND lifecycle_state='Pending' AND superseded=0",
    );
    reveal_strlit("last_command_sequence");
    reveal_strlit("lease_expires_at");
    reveal_strlit("lease_token_hash");
    reveal_strlit("queue_id");
    reveal_strlit("tenant_id");
    reveal_strlit("updated_at");
    reveal_strlit("worker_id");
    assert(sql.subrange(52, 70) =~= "lease_token_hash"@ + seq!['=', '?']);
    assert(sql.subrange(73, 91) =~= "lease_expires_at"@ + seq!['=', '?']);
    assert(sql.subrange(94, 105) =~= "worker_id"@ + seq!['=', '?']);
    assert(sql.subrange(164, 176) =~= "updated_at"@ + seq!['=', '?']);
    assert(sql.subrange(179, 202) =~= "last_command_sequence"@ + seq!['=', '?']);
    assert(sql.subrange(210, 221) =~= "tenant_id"@ + seq!['=', '?']);
    assert(sql.subrange(227, 237) =~= "queue_id"@ + seq!['=', '?']);
}

/// What `CLAIM_RANGE` binds.
pub proof fn lemma_claim_range(ps: Seq<CellV>)
    requires
        ps.len() >= 7,
    ensures
        binds(CLAIM_RANGE@, ps, "lease_token_hash"@, ps[0]),
        binds(CLAIM_RANGE@, ps, "lease_expires_at"@, ps[1]),
        binds(CLAIM_RANGE@, ps, "worker_id"@, ps[2]),
        binds(CLAIM_RANGE@, ps, "updated_at"@, ps[3]),
        binds(CLAIM_RANGE@, ps, "last_command_sequence"@, ps[4]),
        binds(CLAIM_RANGE@, ps, "tenant_id"@, ps[5]),
        binds(CLAIM_RANGE@, ps, "queue_id"@, ps[6]),
{
    lemma_claim_range_columns();
    assert(takes_at(CLAIM_RANGE@, "lease_token_hash"@, 52, 0));
    assert(takes_at(CLAIM_RANGE@, "lease_expires_at"@, 73, 1));
    assert(takes_at(CLAIM_RANGE@, "worker_id"@, 94, 2));
    assert(takes_at(CLAIM_RANGE@, "updated_at"@, 164, 3));
    assert(takes_at(CLAIM_RANGE@, "last_command_sequence"@, 179, 4));
    assert(takes_at(CLAIM_RANGE@, "tenant_id"@, 210, 5));
    assert(takes_at(CLAIM_RANGE@, "queue_id"@, 227, 6));
}

/// Where the columns of `CLAIM_LISTED_END` stand.
proof fn lemma_claim_listed_end_columns()
    ensures
        takes_at(CLAIM_LISTED_END@, "lease_token_hash"@, 54, 0),
        takes_at(CLAIM_LISTED_END@, "lease_expires_at"@, 73, 1),
        takes_at(CLAIM_LISTED_END@, "worker_id"@, 93, 2),
        takes_at(CLAIM_LISTED_END@, "updated_at"@, 162, 3),
        takes_at(CLAIM_LISTED_END@, "last_command_sequence"@, 176, 4),
        takes_at(CLAIM_LISTED_END@, "tenant_id"@, 220, 5),
        takes_at(CLAIM_LISTED_END@, "queue_id"@, 236, 6),
        CLAIM_LISTED_END@.len() == 337,
{
    let sql = CLAIM_LISTED_END@;
    reveal_strlit(
        ") UPDATE fireweed_items SET lifecycle_state='Leased', lease_token_hash=?,lease_expires_at=?, worker_id=?, retry_count=retry_count+1, item_version=item_version+1, updated_at=?, last_command_sequence=? FROM incoming WHERE tenant_id=? AND queue_id=? AND fireweed_items.item_id=incoming.item_id AND lifecycle_state='Pending' AND superseded=0",
    );
    reveal_strlit("last_command_sequence");
    reveal_strlit("lease_expires_at");
    reveal_strlit("lease_token_hash");
    reveal_strlit("queue_id");
    reveal_strlit("tenant_id");
    reveal_strlit("updated_at");
    reveal_strlit("worker_id");
    assert(marks(sql, 44) == 0) by {
        reveal_with_fuel(marks, 46);
    }
    assert(marks(sql, 71) == 0) by {
        reveal_with_fuel(marks, 29);
    }
    assert(marks(sql, 90) == 1) by {
        reveal_with_fuel(marks, 21);
    }
    assert(marks(sql, 103) == 2) by {
        reveal_with_fuel(marks, 15);
    }
    assert(marks(sql, 147) == 3) by {
        reveal_with_fuel(marks, 46);
    }
    assert(marks(sql, 173) == 3) by {
        reveal_with_fuel(marks, 28);
    }
    assert(marks(sql, 198) == 4) by {
        reveal_with_fuel(marks, 27);
    }
    assert(marks(sql, 230) == 5) by {
        reveal_with_fuel(marks, 34);
    }
    assert(marks(sql, 245) == 6) by {
        reveal_with_fuel(marks, 17);
    }
    assert(sql.subrange(54, 72) =~= "lease_token_hash"@ + seq!['=', '?']);
    assert(sql.subrange(73, 91) =~= "lease_expires_at"@ + seq!['=', '?']);
    assert(sql.subrange(93, 104) =~= "worker_id"@ + seq!['=', '?']);
    assert(sql.subrange(162, 174) =~= "updated_at"@ + seq!['=', '?']);
    assert(sql.subrange(176, 199) =~= "last_command_sequence"@ + seq!['=', '?']);
    assert(sql.subrange(220, 231) =~= "tenant_id"@ + seq!['=', '?']);
    assert(sql.subrange(236, 246) =~= "queue_id"@ + seq!['=', '?']);
}

/// What `CLAIM_LISTED_END` binds behind a text with marks of its own.
pub proof fn lemma_claim_listed_end(head: Seq<char>, ps: Seq<CellV>)
    requires
        0 <= marks(head, head.len() as int),
        ps.len() >= marks(head, head.len() as int) + 7,
    ensures
        binds(head + CLAIM_LISTED_END@, ps, "lease_token_hash"@, ps[marks(head, head.len() as int) + 0]),
        binds(head + CLAIM_LISTED_END@, ps, "lease_expires_at"@, ps[marks(head, head.len() as int) + 1]),
        binds(head + CLAIM_LISTED_END@, ps, "worker_id"@, ps[marks(head, head.len() as int) + 2]),
        binds(head + CLAIM_LISTED_END@, ps, "updated_at"@, ps[marks(head, head.len() as int) + 3]),
        binds(head + CLAIM_LISTED_END@, ps, "last_command_sequence"@, ps[marks(head, head.len() as int) + 4]),
        binds(head + CLAIM_LISTED_END@, ps, "tenant_id"@, ps[marks(head, head.len() as int) + 5]),
        binds(head + CLAIM_LISTED_END@, ps, "queue_id"@, ps[marks(head, head.len() as int) + 6]),
{
    lemma_claim_listed_end_columns();
    reveal_strlit(
        ") UPDATE fireweed_items SET lifecycle_state='Leased', lease_token_hash=?,lease_expires_at=?, worker_id=?, retry_count=retry_count+1, item_version=item_version+1, updated_at=?, last_command_sequence=? FROM incoming WHERE tenant_id=? AND queue_id=? AND fireweed_items.item_id=incoming.item_id AND lifecycle_state='Pending' AND superseded=0",
    );
    reveal_strlit("last_command_sequence");
    reveal_strlit("lease_expires_at");
    reveal_strlit("lease_token_hash");
    reveal_strlit("queue_id");
    reveal_strlit("tenant_id");
    reveal_strlit("updated_at");
    reveal_strlit("worker_id");
    lemma_takes_behind(head, CLAIM_LISTED_END@, "lease_token_hash"@, 54, 0);
    lemma_takes_behind(head, CLAIM_LISTED_END@, "lease_expires_at"@, 73, 1);
    lemma_takes_behind(head, CLAIM_LISTED_END@, "worker_id"@, 93, 2);
    lemma_takes_behind(head, CLAIM_LISTED_END@, "updated_at"@, 162, 3);
    lemma_takes_behind(head, CLAIM_LISTED_END@, "last_command_sequence"@, 176, 4);
    lemma_takes_behind(head, CLAIM_LISTED_END@, "tenant_id"@, 220, 5);
    lemma_takes_behind(head, CLAIM_LISTED_END@, "queue_id"@, 236, 6);
}

/// Where the columns of `CLAIM_COHORT_ITEMS` stand.
proof fn lemma_claim_cohort_items_columns()
    ensures
        takes_at(CLAIM_COHORT_ITEMS@, "lease_token_hash"@, 52, 0),
        takes_at(CLAIM_COHORT_ITEMS@, "lease_expires_at"@, 72, 1),
        takes_at(CLAIM_COHORT_ITEMS@, "updated_at"@, 148, 2),
        takes_at(CLAIM_COHORT_ITEMS@, "last_command_sequence"@, 162, 3),
        takes_at(CLAIM_COHORT_ITEMS@, "tenant_id"@, 192, 4),
        takes_at(CLAIM_COHORT_ITEMS@, "queue_id"@, 208, 5),
        CLAIM_COHORT_ITEMS@.len() == 233,
{
    let sql = CLAIM_COHORT_ITEMS@;
    reveal_strlit(
        "UPDATE fireweed_items SET lifecycle_state='Leased', lease_token_hash=?, lease_expires_at=?, retry_count=retry_count+1, item_version=item_version+1, updated_at=?, last_command_sequence=? WHERE tenant_id=? AND queue_id=? AND item_id IN",
    );
    reveal_strlit("last_command_sequence");
    reveal_strlit("lease_expires_at");
    reveal_strlit("lease_token_hash");
    reveal_strlit("queue_id");
    reveal_strlit("tenant_id");
    reveal_strlit("updated_at");
    assert(marks(sql, 44) == 0) by {
        reveal_with_fuel(marks, 46);
    }
    assert(marks(sql, 69) == 0) by {
        reveal_with_fuel(marks, 27);
    }
    assert(marks(sql, 89) == 1) by {
        reveal_with_fuel(marks, 22);
    }
    assert(marks(sql, 133) == 2) by {
        reveal_with_fuel(marks, 46);
    }
    assert(marks(sql, 159) == 2) by {
        reveal_with_fuel(marks, 28);
    }
    assert(marks(sql, 184) == 3) by {
        reveal_with_fuel(marks, 27);
    }
    assert(marks(sql, 202) == 4) by {
        reveal_with_fuel(marks, 20);
    }
    assert(marks(sql, 217) == 5) by {
        reveal_with_fuel(marks, 17);
    }
    assert(sql.subrange(52, 70) =~= "lease_token_hash"@ + seq!['=', '?']);
    assert(sql.subrange(72, 90) =~= "lease_expires_at"@ + seq!['=', '?']);
    assert(sql.subrange(148, 160) =~= "updated_at"@ + seq!['=', '?']);
    assert(sql.subrange(162, 185) =~= "last_command_sequence"@ + seq!['=', '?']);
    assert(sql.subrange(192, 203) =~= "tenant_id"@ + seq!['=', '?']);
    assert(sql.subrange(208, 218) =~= "queue_id"@ + seq!['=', '?']);
}

/// What `CLAIM_COHORT_ITEMS` binds, over any list.
pub proof fn lemma_claim_cohort_items(n: nat, ps: Seq<CellV>)
    requires
        ps.len() >= 6,
    ensures
        binds(listed(CLAIM_COHORT_ITEMS@, n, Seq::empty()), ps, "lease_token_hash"@, ps[0]),
        binds(listed(CLAIM_COHORT_ITEMS@, n, Seq::empty()), ps, "lease_expires_at"@, ps[1]),
        binds(listed(CLAIM_COHORT_ITEMS@, n, Seq::empty()), ps, "updated_at"@, ps[2]),
        binds(listed(CLAIM_COHORT_ITEMS@, n, Seq::empty()), ps, "last_command_sequence"@, ps[3]),
        binds(listed(CLAIM_COHORT_ITEMS@, n, Seq::empty()), ps, "tenant_id"@, ps[4]),
        binds(listed(CLAIM_COHORT_ITEMS@, n, Seq::empty()), ps, "queue_id"@, ps[5]),
{
    lemma_claim_cohort_items_columns();
    reveal_strlit("last_command_sequence");
    reveal_strlit("lease_expires_at");
    reveal_strlit("lease_token_hash");
    reveal_strlit("queue_id");
    reveal_strlit("tenant_id");
    reveal_strlit("updated_at");
    lemma_binds_listed(CLAIM_COHORT_ITEMS@, n, ps, "lease_token_hash"@, 52, 0);
    lemma_binds_listed(CLAIM_COHORT_ITEMS@, n, ps, "lease_expires_at"@, 72, 1);
    lemma_binds_listed(CLAIM_COHORT_ITEMS@, n, ps, "updated_at"@, 148, 2);
    lemma_binds_listed(CLAIM_COHORT_ITEMS@, n, ps, "last_command_sequence"@, 162, 3);
    lemma_binds_listed(CLAIM_COHORT_ITEMS@, n, ps, "tenant_id"@, 192, 4);
    lemma_binds_listed(CLAIM_COHORT_ITEMS@, n, ps, "queue_id"@, 208, 5);
}

/// Where the columns of `CLAIM_COHORT` stand.
proof fn lemma_claim_cohort_columns()
    ensures
        takes_at(CLAIM_COHORT@, "cohort_lease_token_hash"@, 44, 3),
        takes_at(CLAIM_COHORT@, "tenant_id"@, 77, 0),
        takes_at(CLAIM_COHORT@, "queue_id"@, 94, 1),
        takes_at(CLAIM_COHORT@, "cohort_id"@, 110, 2),
        CLAIM_COHORT@.len() == 122,
{
    let sql = CLAIM_COHORT@;
    reveal_strlit(
        "UPDATE fireweed_cohorts SET state='leased', cohort_lease_token_hash=?4 WHERE tenant_id=?1 AND queue_id=?2 AND cohort_id=?3",
    );
    reveal_strlit("cohort_id");
    reveal_strlit("cohort_lease_token_hash");
    reveal_strlit("queue_id");
    reveal_strlit("tenant_id");
    assert(sql.subrange(44, 69) =~= "cohort_lease_token_hash"@ + seq!['=', '?']);
    assert(sql.subrange(77, 88) =~= "tenant_id"@ + seq!['=', '?']);
    assert(sql.subrange(94, 104) =~= "queue_id"@ + seq!['=', '?']);
    assert(sql.subrange(110, 121) =~= "cohort_id"@ + seq!['=', '?']);
}

/// What `CLAIM_COHORT` binds.
pub proof fn lemma_claim_cohort(ps: Seq<CellV>)
    requires
        ps.len() >= 4,
    ensures
        binds(CLAIM_COHORT@, ps, "cohort_lease_token_hash"@, ps[3]),
        binds(CLAIM_COHORT@, ps, "tenant_id"@, ps[0]),
        binds(CLAIM_COHORT@, ps, "queue_id"@, ps[1]),
        binds(CLAIM_COHORT@, ps, "cohort_id"@, ps[2]),
{
    lemma_claim_cohort_columns();
    assert(takes_at(CLAIM_COHORT@, "cohort_lease_token_hash"@, 44, 3));
    assert(takes_at(CLAIM_COHORT@, "tenant_id"@, 77, 0));
    assert(takes_at(CLAIM_COHORT@, "queue_id"@, 94, 1));
    assert(takes_at(CLAIM_COHORT@, "cohort_id"@, 110, 2));
}

/// Where the columns of `RENEW_ITEMS` stand.
proof fn lemma_renew_items_columns()
    ensures
        takes_at(RENEW_ITEMS@, "lease_expires_at"@, 26, 0),
        takes_at(RENEW_ITEMS@, "updated_at"@, 75, 1),
        takes_at(RENEW_ITEMS@, "last_command_sequence"@, 89, 2),
        takes_at(RENEW_ITEMS@, "tenant_id"@, 119, 3),
        takes_at(RENEW_ITEMS@, "queue_id"@, 135, 4),
        RENEW_ITEMS@.len() == 160,
{
    let sql = RENEW_ITEMS@;
    reveal_strlit(
        "UPDATE fireweed_items SET lease_expires_at=?, item_version=item_version+1, updated_at=?, last_command_sequence=? WHERE tenant_id=? AND queue_id=? AND item_id IN",
    );
    reveal_strlit("last_command_sequence");
    reveal_strlit("lease_expires_at");
    reveal_strlit("queue_id");
    reveal_strlit("tenant_id");
    reveal_strlit("updated_at");
    assert(marks(sql, 43) == 0) by {
        reveal_with_fuel(marks, 45);
    }
    assert(marks(sql, 86) == 1) by {
        reveal_with_fuel(marks, 45);
    }
    assert(marks(sql, 111) == 2) by {
        reveal_with_fuel(marks, 27);
    }
    assert(marks(sql, 129) == 3) by {
        reveal_with_fuel(marks, 20);
    }
    assert(marks(sql, 144) == 4) by {
        reveal_with_fuel(marks, 17);
    }
    assert(sql.subrange(26, 44) =~= "lease_expires_at"@ + seq!['=', '?']);
    assert(sql.subrange(75, 87) =~= "updated_at"@ + seq!['=', '?']);
    assert(sql.subrange(89, 112) =~= "last_command_sequence"@ + seq!['=', '?']);
    assert(sql.subrange(119, 130) =~= "tenant_id"@ + seq!['=', '?']);
    assert(sql.subrange(135, 145) =~= "queue_id"@ + seq!['=', '?']);
}

/// What `RENEW_ITEMS` binds, over any list.
pub proof fn lemma_renew_items(n: nat, ps: Seq<CellV>)
    requires
        ps.len() >= 5,
    ensures
        binds(listed(RENEW_ITEMS@, n, Seq::empty()), ps, "lease_expires_at"@, ps[0]),
        binds(listed(RENEW_ITEMS@, n, Seq::empty()), ps, "updated_at"@, ps[1]),
        binds(listed(RENEW_ITEMS@, n, Seq::empty()), ps, "last_command_sequence"@, ps[2]),
        binds(listed(RENEW_ITEMS@, n, Seq::empty()), ps, "tenant_id"@, ps[3]),
        binds(listed(RENEW_ITEMS@, n, Seq::empty()), ps, "queue_id"@, ps[4]),
{
    lemma_renew_items_columns();
    reveal_strlit("last_command_sequence");
    reveal_strlit("lease_expires_at");
    reveal_strlit("queue_id");
    reveal_strlit("tenant_id");
    reveal_strlit("updated_at");
    lemma_binds_listed(RENEW_ITEMS@, n, ps, "lease_expires_at"@, 26, 0);
    lemma_binds_listed(RENEW_ITEMS@, n, ps, "updated_at"@, 75, 1);
    lemma_binds_listed(RENEW_ITEMS@, n, ps, "last_command_sequence"@, 89, 2);
    lemma_binds_listed(RENEW_ITEMS@, n, ps, "tenant_id"@, 119, 3);
    lemma_binds_listed(RENEW_ITEMS@, n, ps, "queue_id"@, 135, 4);
}

/// Where the columns of `REASSIGN_ITEMS` stand.
proof fn lemma_reassign_items_columns()
    ensures
        takes_at(REASSIGN_ITEMS@, "lease_token_hash"@, 26, 0),
        takes_at(REASSIGN_ITEMS@, "lease_expires_at"@, 46, 1),
        takes_at(REASSIGN_ITEMS@, "updated_at"@, 122, 2),
        takes_at(REASSIGN_ITEMS@, "last_command_sequence"@, 136, 3),
        takes_at(REASSIGN_ITEMS@, "tenant_id"@, 166, 4),
        takes_at(REASSIGN_ITEMS@, "queue_id"@, 182, 5),
        REASSIGN_ITEMS@.len() == 236,
{
    let sql = REASSIGN_ITEMS@;
    reveal_strlit(
        "UPDATE fireweed_items SET lease_token_hash=?, lease_expires_at=?, retry_count=retry_count+1, item_version=item_version+1, updated_at=?, last_command_sequence=? WHERE tenant_id=? AND queue_id=? AND lifecycle_state='Leased' AND item_id IN",
    );
    reveal_strlit("last_command_sequence");
    reveal_strlit("lease_expires_at");
    reveal_strlit("lease_token_hash");
    reveal_strlit("queue_id");
    reveal_strlit("tenant_id");
    reveal_strlit("updated_at");
    assert(marks(sql, 43) == 0) by {
        reveal_with_fuel(marks, 45);
    }
    assert(marks(sql, 63) == 1) by {
        reveal_with_fuel(marks, 22);
    }
    assert(marks(sql, 107) == 2) by {
        reveal_with_fuel(marks, 46);
    }
    assert(marks(sql, 133) == 2) by {
        reveal_with_fuel(marks, 28);
    }
    assert(marks(sql, 158) == 3) by {
        reveal_with_fuel(marks, 27);
    }
    assert(marks(sql, 176) == 4) by {
        reveal_with_fuel(marks, 20);
    }
    assert(marks(sql, 191) == 5) by {
        reveal_with_fuel(marks, 17);
    }
    assert(sql.subrange(26, 44) =~= "lease_token_hash"@ + seq!['=', '?']);
    assert(sql.subrange(46, 64) =~= "lease_expires_at"@ + seq!['=', '?']);
    assert(sql.subrange(122, 134) =~= "updated_at"@ + seq!['=', '?']);
    assert(sql.subrange(136, 159) =~= "last_command_sequence"@ + seq!['=', '?']);
    assert(sql.subrange(166, 177) =~= "tenant_id"@ + seq!['=', '?']);
    assert(sql.subrange(182, 192) =~= "queue_id"@ + seq!['=', '?']);
}

/// What `REASSIGN_ITEMS` binds, over any list.
pub proof fn lemma_reassign_items(n: nat, ps: Seq<CellV>)
    requires
        ps.len() >= 6,
    ensures
        binds(listed(REASSIGN_ITEMS@, n, Seq::empty()), ps, "lease_token_hash"@, ps[0]),
        binds(listed(REASSIGN_ITEMS@, n, Seq::empty()), ps, "lease_expires_at"@, ps[1]),
        binds(listed(REASSIGN_ITEMS@, n, Seq::empty()), ps, "updated_at"@, ps[2]),
        binds(listed(REASSIGN_ITEMS@, n, Seq::empty()), ps, "last_command_sequence"@, ps[3]),
        binds(listed(REASSIGN_ITEMS@, n, Seq::empty()), ps, "tenant_id"@, ps[4]),
        binds(listed(REASSIGN_ITEMS@, n, Seq::empty()), ps, "queue_id"@, ps[5]),
{
    lemma_reassign_items_columns();
    reveal_strlit("last_command_sequence");
    reveal_strlit("lease_expires_at");
    reveal_strlit("lease_token_hash");
    reveal_strlit("queue_id");
    reveal_strlit("tenant_id");
    reveal_strlit("updated_at");
    lemma_binds_listed(REASSIGN_ITEMS@, n, ps, "lease_token_hash"@, 26, 0);
    lemma_binds_listed(REASSIGN_ITEMS@, n, ps, "lease_expires_at"@, 46, 1);
    lemma_binds_listed(REASSIGN_ITEMS@, n, ps, "updated_at"@, 122, 2);
    lemma_binds_listed(REASSIGN_ITEMS@, n, ps, "last_command_sequence"@, 136, 3);
    lemma_binds_listed(REASSIGN_ITEMS@, n, ps, "tenant_id"@, 166, 4);
    lemma_binds_listed(REASSIGN_ITEMS@, n, ps, "queue_id"@, 182, 5);
}

/// Where the columns of `EXPIRE_ITEMS` stand.
proof fn lemma_expire_items_columns()
    ensures
        takes_at(EXPIRE_ITEMS@, "updated_at"@, 144, 0),
        takes_at(EXPIRE_ITEMS@, "last_command_sequence"@, 158, 1),
        takes_at(EXPIRE_ITEMS@, "tenant_id"@, 244, 3),
        takes_at(EXPIRE_ITEMS@, "queue_id"@, 260, 4),
        EXPIRE_ITEMS@.len() == 314,
{
    let sql = EXPIRE_ITEMS@;
    reveal_strlit(
        "UPDATE fireweed_items SET lifecycle_state='Pending', lease_token_hash=NULL, lease_expires_at=NULL, worker_id=NULL, item_version=item_version+1, updated_at=?, last_command_sequence=? WHERE lease_expires_at IS NOT NULL AND lease_expires_at<? AND tenant_id=? AND queue_id=? AND lifecycle_state='Leased' AND item_id IN",
    );
    reveal_strlit("last_command_sequence");
    reveal_strlit("queue_id");
    reveal_strlit("tenant_id");
    reveal_strlit("updated_at");
    assert(marks(sql, 44) == 0) by {
        reveal_with_fuel(marks, 46);
    }
    assert(marks(sql, 88) == 0) by {
        reveal_with_fuel(marks, 46);
    }
    assert(marks(sql, 132) == 0) by {
        reveal_with_fuel(marks, 46);
    }
    assert(marks(sql, 155) == 0) by {
        reveal_with_fuel(marks, 25);
    }
    assert(marks(sql, 180) == 1) by {
        reveal_with_fuel(marks, 27);
    }
    assert(marks(sql, 224) == 2) by {
        reveal_with_fuel(marks, 46);
    }
    assert(marks(sql, 254) == 3) by {
        reveal_with_fuel(marks, 32);
    }
    assert(marks(sql, 269) == 4) by {
        reveal_with_fuel(marks, 17);
    }
    assert(sql.subrange(144, 156) =~= "updated_at"@ + seq!['=', '?']);
    assert(sql.subrange(158, 181) =~= "last_command_sequence"@ + seq!['=', '?']);
    assert(sql.subrange(244, 255) =~= "tenant_id"@ + seq!['=', '?']);
    assert(sql.subrange(260, 270) =~= "queue_id"@ + seq!['=', '?']);
}

/// What `EXPIRE_ITEMS` binds, over any list.
pub proof fn lemma_expire_items(n: nat, ps: Seq<CellV>)
    requires
        ps.len() >= 5,
    ensures
        binds(listed(EXPIRE_ITEMS@, n, Seq::empty()), ps, "updated_at"@, ps[0]),
        binds(listed(EXPIRE_ITEMS@, n, Seq::empty()), ps, "last_command_sequence"@, ps[1]),
        binds(listed(EXPIRE_ITEMS@, n, Seq::empty()), ps, "tenant_id"@, ps[3]),
        binds(listed(EXPIRE_ITEMS@, n, Seq::empty()), ps, "queue_id"@, ps[4]),
{
    lemma_expire_items_columns();
    reveal_strlit("last_command_sequence");
    reveal_strlit("queue_id");
    reveal_strlit("tenant_id");
    reveal_strlit("updated_at");
    lemma_binds_listed(EXPIRE_ITEMS@, n, ps, "updated_at"@, 144, 0);
    lemma_binds_listed(EXPIRE_ITEMS@, n, ps, "last_command_sequence"@, 158, 1);
    lemma_binds_listed(EXPIRE_ITEMS@, n, ps, "tenant_id"@, 244, 3);
    lemma_binds_listed(EXPIRE_ITEMS@, n, ps, "queue_id"@, 260, 4);
}

/// Where the columns of `FAIL_ITEMS` stand.
proof fn lemma_fail_items_columns()
    ensures
        takes_at(FAIL_ITEMS@, "terminal_at"@, 81, 0),
        takes_at(FAIL_ITEMS@, "terminal_command_epoch"@, 96, 1),
        takes_at(FAIL_ITEMS@, "updated_at"@, 122, 2),
        takes_at(FAIL_ITEMS@, "last_command_sequence"@, 136, 3),
        takes_at(FAIL_ITEMS@, "tenant_id"@, 166, 4),
        takes_at(FAIL_ITEMS@, "queue_id"@, 182, 5),
        FAIL_ITEMS@.len() == 207,
{
    let sql = FAIL_ITEMS@;
    reveal_strlit(
        "UPDATE fireweed_items SET lifecycle_state='Failed', item_version=item_version+1, terminal_at=?, terminal_command_epoch=?, updated_at=?, last_command_sequence=? WHERE tenant_id=? AND queue_id=? AND item_id IN",
    );
    reveal_strlit("last_command_sequence");
    reveal_strlit("queue_id");
    reveal_strlit("tenant_id");
    reveal_strlit("terminal_at");
    reveal_strlit("terminal_command_epoch");
    reveal_strlit("updated_at");
    assert(marks(sql, 44) == 0) by {
        reveal_with_fuel(marks, 46);
    }
    assert(marks(sql, 88) == 0) by {
        reveal_with_fuel(marks, 46);
    }
    assert(marks(sql, 93) == 0) by {
        reveal_with_fuel(marks, 7);
    }
    assert(marks(sql, 119) == 1) by {
        reveal_with_fuel(marks, 28);
    }
    assert(marks(sql, 133) == 2) by {
        reveal_with_fuel(marks, 16);
    }
    assert(marks(sql, 158) == 3) by {
        reveal_with_fuel(marks, 27);
    }
    assert(marks(sql, 176) == 4) by {
        reveal_with_fuel(marks, 20);
    }
    assert(marks(sql, 191) == 5) by {
        reveal_with_fuel(marks, 17);
    }
    assert(sql.subrange(81, 94) =~= "terminal_at"@ + seq!['=', '?']);
    assert(sql.subrange(96, 120) =~= "terminal_command_epoch"@ + seq!['=', '?']);
    assert(sql.subrange(122, 134) =~= "updated_at"@ + seq!['=', '?']);
    assert(sql.subrange(136, 159) =~= "last_command_sequence"@ + seq!['=', '?']);
    assert(sql.subrange(166, 177) =~= "tenant_id"@ + seq!['=', '?']);
    assert(sql.subrange(182, 192) =~= "queue_id"@ + seq!['=', '?']);
}

/// What `FAIL_ITEMS` binds, over any list.
pub proof fn lemma_fail_items(n: nat, ps: Seq<CellV>)
    requires
        ps.len() >= 6,
    ensures
        binds(listed(FAIL_ITEMS@, n, Seq::empty()), ps, "terminal_at"@, ps[0]),
        binds(listed(FAIL_ITEMS@, n, Seq::empty()), ps, "terminal_command_epoch"@, ps[1]),
        binds(listed(FAIL_ITEMS@, n, Seq::empty()), ps, "updated_at"@, ps[2]),
        binds(listed(FAIL_ITEMS@, n, Seq::empty()), ps, "last_command_sequence"@, ps[3]),
        binds(listed(FAIL_ITEMS@, n, Seq::empty()), ps, "tenant_id"@, ps[4]),
        binds(listed(FAIL_ITEMS@, n, Seq::empty()), ps, "queue_id"@, ps[5]),
{
    lemma_fail_items_columns();
    reveal_strlit("last_command_sequence");
    reveal_strlit("queue_id");
    reveal_strlit("tenant_id");
    reveal_strlit("terminal_at");
    reveal_strlit("terminal_command_epoch");
    reveal_strlit("updated_at");
    lemma_binds_listed(FAIL_ITEMS@, n, ps, "terminal_at"@, 81, 0);
    lemma_binds_listed(FAIL_ITEMS@, n, ps, "terminal_command_epoch"@, 96, 1);
    lemma_binds_listed(FAIL_ITEMS@, n, ps, "updated_at"@, 122, 2);
    lemma_binds_listed(FAIL_ITEMS@, n, ps, "last_command_sequence"@, 136, 3);
    lemma_binds_listed(FAIL_ITEMS@, n, ps, "tenant_id"@, 166, 4);
    lemma_binds_listed(FAIL_ITEMS@, n, ps, "queue_id"@, 182, 5);
}

/// Where the columns of `EXPIRE_COHORT` stand.
proof fn lemma_expire_cohort_columns()
    ensures
        takes_at(EXPIRE_COHORT@, "expire_command_pos"@, 46, 3),
        takes_at(EXPIRE_COHORT@, "retention_until"@, 99, 4),
        takes_at(EXPIRE_COHORT@, "tenant_id"@, 124, 0),
        takes_at(EXPIRE_COHORT@, "queue_id"@, 141, 1),
        takes_at(EXPIRE_COHORT@, "group_key"@, 157, 2),
        EXPIRE_COHORT@.len() == 169,
{
    let sql = EXPIRE_COHORT@;
    reveal_strlit(
        "UPDATE fireweed_cohorts SET state='terminal', expire_command_pos=?4, cohort_lease_token_hash=NULL, retention_until=?5 WHERE tenant_id=?1 AND queue_id=?2 AND group_key=?3",
    );
    reveal_strlit("expire_command_pos");
    reveal_strlit("group_key");
    reveal_strlit("queue_id");
    reveal_strlit("retention_until");
    reveal_strlit("tenant_id");
    assert(sql.subrange(46, 66) =~= "expire_command_pos"@ + seq!['=', '?']);
    assert(sql.subrange(99, 116) =~= "retention_until"@ + seq!['=', '?']);
    assert(sql.subrange(124, 135) =~= "tenant_id"@ + seq!['=', '?']);
    assert(sql.subrange(141, 151) =~= "queue_id"@ + seq!['=', '?']);
    assert(sql.subrange(157, 168) =~= "group_key"@ + seq!['=', '?']);
}

/// What `EXPIRE_COHORT` binds.
pub proof fn lemma_expire_cohort(ps: Seq<CellV>)
    requires
        ps.len() >= 5,
    ensures
        binds(EXPIRE_COHORT@, ps, "expire_command_pos"@, ps[3]),
        binds(EXPIRE_COHORT@, ps, "retention_until"@, ps[4]),
        binds(EXPIRE_COHORT@, ps, "tenant_id"@, ps[0]),
        binds(EXPIRE_COHORT@, ps, "queue_id"@, ps[1]),
        binds(EXPIRE_COHORT@, ps, "group_key"@, ps[2]),
{
    lemma_expire_cohort_columns();
    assert(takes_at(EXPIRE_COHORT@, "expire_command_pos"@, 46, 3));
    assert(takes_at(EXPIRE_COHORT@, "retention_until"@, 99, 4));
    assert(takes_at(EXPIRE_COHORT@, "tenant_id"@, 124, 0));
    assert(takes_at(EXPIRE_COHORT@, "queue_id"@, 141, 1));
    assert(takes_at(EXPIRE_COHORT@, "group_key"@, 157, 2));
}

/// Where the columns of `FINALIZE_SET` stand.
proof fn lemma_finalize_set_columns()
    ensures
        takes_at(FINALIZE_SET@, "lifecycle_state"@, 26, 0),
        takes_at(FINALIZE_SET@, "terminal_at"@, 199, 2),
        takes_at(FINALIZE_SET@, "terminal_command_epoch"@, 214, 3),
        takes_at(FINALIZE_SET@, "updated_at"@, 240, 4),
        takes_at(FINALIZE_SET@, "last_command_sequence"@, 254, 5),
        takes_at(FINALIZE_SET@, "tenant_id"@, 284, 6),
        takes_at(FINALIZE_SET@, "queue_id"@, 300, 7),
        FINALIZE_SET@.len() == 325,
{
    let sql = FINALIZE_SET@;
    reveal_strlit(
        "UPDATE fireweed_items SET lifecycle_state=?, lease_token_hash=NULL, lease_expires_at=NULL, worker_id=NULL, fenced=0, item_version=item_version+1, retry_count=CASE WHEN ? THEN 0 ELSE retry_count END, terminal_at=?, terminal_command_epoch=?, updated_at=?, last_command_sequence=? WHERE tenant_id=? AND queue_id=? AND item_id IN",
    );
    reveal_strlit("last_command_sequence");
    reveal_strlit("lifecycle_state");
    reveal_strlit("queue_id");
    reveal_strlit("tenant_id");
    reveal_strlit("terminal_at");
    reveal_strlit("terminal_command_epoch");
    reveal_strlit("updated_at");
    assert(marks(sql, 42) == 0) by {
        reveal_with_fuel(marks, 44);
    }
    assert(marks(sql, 86) == 1) by {
        reveal_with_fuel(marks, 46);
    }
    assert(marks(sql, 130) == 1) by {
        reveal_with_fuel(marks, 46);
    }
    assert(marks(sql, 174) == 2) by {
        reveal_with_fuel(marks, 46);
    }
    assert(marks(sql, 211) == 2) by {
        reveal_with_fuel(marks, 39);
    }
    assert(marks(sql, 237) == 3) by {
        reveal_with_fuel(marks, 28);
    }
    assert(marks(sql, 251) == 4) by {
        reveal_with_fuel(marks, 16);
    }
    assert(marks(sql, 276) == 5) by {
        reveal_with_fuel(marks, 27);
    }
    assert(marks(sql, 294) == 6) by {
        reveal_with_fuel(marks, 20);
    }
    assert(marks(sql, 309) == 7) by {
        reveal_with_fuel(marks, 17);
    }
    assert(sql.subrange(26, 43) =~= "lifecycle_state"@ + seq!['=', '?']);
    assert(sql.subrange(199, 212) =~= "terminal_at"@ + seq!['=', '?']);
    assert(sql.subrange(214, 238) =~= "terminal_command_epoch"@ + seq!['=', '?']);
    assert(sql.subrange(240, 252) =~= "updated_at"@ + seq!['=', '?']);
    assert(sql.subrange(254, 277) =~= "last_command_sequence"@ + seq!['=', '?']);
    assert(sql.subrange(284, 295) =~= "tenant_id"@ + seq!['=', '?']);
    assert(sql.subrange(300, 310) =~= "queue_id"@ + seq!['=', '?']);
}

/// What `FINALIZE_SET` binds, over any list.
pub proof fn lemma_finalize_set(n: nat, ps: Seq<CellV>)
    requires
        ps.len() >= 8,
    ensures
        binds(listed(FINALIZE_SET@, n, Seq::empty()), ps, "lifecycle_state"@, ps[0]),
        binds(listed(FINALIZE_SET@, n, Seq::empty()), ps, "terminal_at"@, ps[2]),
        binds(listed(FINALIZE_SET@, n, Seq::empty()), ps, "terminal_command_epoch"@, ps[3]),
        binds(listed(FINALIZE_SET@, n, Seq::empty()), ps, "updated_at"@, ps[4]),
        binds(listed(FINALIZE_SET@, n, Seq::empty()), ps, "last_command_sequence"@, ps[5]),
        binds(listed(FINALIZE_SET@, n, Seq::empty()), ps, "tenant_id"@, ps[6]),
        binds(listed(FINALIZE_SET@, n, Seq::empty()), ps, "queue_id"@, ps[7]),
{
    lemma_finalize_set_columns();
    reveal_strlit("last_command_sequence");
    reveal_strlit("lifecycle_state");
    reveal_strlit("queue_id");
    reveal_strlit("tenant_id");
    reveal_strlit("terminal_at");
    reveal_strlit("terminal_command_epoch");
    reveal_strlit("updated_at");
    lemma_binds_listed(FINALIZE_SET@, n, ps, "lifecycle_state"@, 26, 0);
    lemma_binds_listed(FINALIZE_SET@, n, ps, "terminal_at"@, 199, 2);
    lemma_binds_listed(FINALIZE_SET@, n, ps, "terminal_command_epoch"@, 214, 3);
    lemma_binds_listed(FINALIZE_SET@, n, ps, "updated_at"@, 240, 4);
    lemma_binds_listed(FINALIZE_SET@, n, ps, "last_command_sequence"@, 254, 5);
    lemma_binds_listed(FINALIZE_SET@, n, ps, "tenant_id"@, 284, 6);
    lemma_binds_listed(FINALIZE_SET@, n, ps, "queue_id"@, 300, 7);
}

/// Where the columns of `FINALIZE_RANGE` stand.
proof fn lemma_finalize_range_columns()
    ensures
        takes_at(FINALIZE_RANGE@, "lifecycle_state"@, 26, 0),
        takes_at(FINALIZE_RANGE@, "terminal_at"@, 201, 2),
        takes_at(FINALIZE_RANGE@, "terminal_command_epoch"@, 217, 3),
        takes_at(FINALIZE_RANGE@, "updated_at"@, 244, 4),
        takes_at(FINALIZE_RANGE@, "last_command_sequence"@, 259, 5),
        takes_at(FINALIZE_RANGE@, "tenant_id"@, 290, 6),
        takes_at(FINALIZE_RANGE@, "queue_id"@, 307, 7),
        FINALIZE_RANGE@.len() == 347,
{
    let sql = FINALIZE_RANGE@;
    reveal_strlit(
        "UPDATE fireweed_items SET lifecycle_state=?1, lease_token_hash=NULL, lease_expires_at=NULL, worker_id=NULL, fenced=0, item_version=item_version+1, retry_count=CASE WHEN ?2 THEN 0 ELSE retry_count END, terminal_at=?3, terminal_command_epoch=?4, updated_at=?5, last_command_sequence=?6 WHERE tenant_id=?7 AND queue_id=?8 AND rowid BETWEEN ?9 AND ?10",
    );
    reveal_strlit("last_command_sequence");
    reveal_strlit("lifecycle_state");
    reveal_strlit("queue_id");
    reveal_strlit("tenant_id");
    reveal_strlit("terminal_at");
    reveal_strlit("terminal_command_epoch");
    reveal_strlit("updated_at");
    assert(sql.subrange(26, 43) =~= "lifecycle_state"@ + seq!['=', '?']);
    assert(sql.subrange(201, 214) =~= "terminal_at"@ + seq!['=', '?']);
    assert(sql.subrange(217, 241) =~= "terminal_command_epoch"@ + seq!['=', '?']);
    assert(sql.subrange(244, 256) =~= "updated_at"@ + seq!['=', '?']);
    assert(sql.subrange(259, 282) =~= "last_command_sequence"@ + seq!['=', '?']);
    assert(sql.subrange(290, 301) =~= "tenant_id"@ + seq!['=', '?']);
    assert(sql.subrange(307, 317) =~= "queue_id"@ + seq!['=', '?']);
}

/// What `FINALIZE_RANGE` binds.
pub proof fn lemma_finalize_range(ps: Seq<CellV>)
    requires
        ps.len() >= 8,
    ensures
        binds(FINALIZE_RANGE@, ps, "lifecycle_state"@, ps[0]),
        binds(FINALIZE_RANGE@, ps, "terminal_at"@, ps[2]),
        binds(FINALIZE_RANGE@, ps, "terminal_command_epoch"@, ps[3]),
        binds(FINALIZE_RANGE@, ps, "updated_at"@, ps[4]),
        binds(FINALIZE_RANGE@, ps, "last_command_sequence"@, ps[5]),
        binds(FINALIZE_RANGE@, ps, "tenant_id"@, ps[6]),
        binds(FINALIZE_RANGE@, ps, "queue_id"@, ps[7]),
{
    lemma_finalize_range_columns();
    assert(takes_at(FINALIZE_RANGE@, "lifecycle_state"@, 26, 0));
    assert(takes_at(FINALIZE_RANGE@, "terminal_at"@, 201, 2));
    assert(takes_at(FINALIZE_RANGE@, "terminal_command_epoch"@, 217, 3));
    assert(takes_at(FINALIZE_RANGE@, "updated_at"@, 244, 4));
    assert(takes_at(FINALIZE_RANGE@, "last_command_sequence"@, 259, 5));
    assert(takes_at(FINALIZE_RANGE@, "tenant_id"@, 290, 6));
    assert(takes_at(FINALIZE_RANGE@, "queue_id"@, 307, 7));
}

/// Where the columns of `RESCHEDULE` stand.
proof fn lemma_reschedule_columns()
    ensures
        takes_at(RESCHEDULE@, "not_before"@, 26, 0),
        takes_at(RESCHEDULE@, "eligible_since"@, 40, 1),
        takes_at(RESCHEDULE@, "tenant_id"@, 63, 2),
        takes_at(RESCHEDULE@, "queue_id"@, 79, 3),
        RESCHEDULE@.len() == 104,
{
    let sql = RESCHEDULE@;
    reveal_strlit(
        "UPDATE fireweed_items SET not_before=?, eligible_since=? WHERE tenant_id=? AND queue_id=? AND item_id IN",
    );
    reveal_strlit("eligible_since");
    reveal_strlit("not_before");
    reveal_strlit("queue_id");
    reveal_strlit("tenant_id");
    assert(marks(sql, 37) == 0) by {
        reveal_with_fuel(marks, 39);
    }
    assert(marks(sql, 55) == 1) by {
        reveal_with_fuel(marks, 20);
    }
    assert(marks(sql, 73) == 2) by {
        reveal_with_fuel(marks, 20);
    }
    assert(marks(sql, 88) == 3) by {
        reveal_with_fuel(marks, 17);
    }
    assert(sql.subrange(26, 38) =~= "not_before"@ + seq!['=', '?']);
    assert(sql.subrange(40, 56) =~= "eligible_since"@ + seq!['=', '?']);
    assert(sql.subrange(63, 74) =~= "tenant_id"@ + seq!['=', '?']);
    assert(sql.subrange(79, 89) =~= "queue_id"@ + seq!['=', '?']);
}

/// What `RESCHEDULE` binds, over any list.
pub proof fn lemma_reschedule(n: nat, ps: Seq<CellV>)
    requires
        ps.len() >= 4,
    ensures
        binds(listed(RESCHEDULE@, n, Seq::empty()), ps, "not_before"@, ps[0]),
        binds(listed(RESCHEDULE@, n, Seq::empty()), ps, "eligible_since"@, ps[1]),
        binds(listed(RESCHEDULE@, n, Seq::empty()), ps, "tenant_id"@, ps[2]),
        binds(listed(RESCHEDULE@, n, Seq::empty()), ps, "queue_id"@, ps[3]),
{
    lemma_reschedule_columns();
    reveal_strlit("eligible_since");
    reveal_strlit("not_before");
    reveal_strlit("queue_id");
    reveal_strlit("tenant_id");
    lemma_binds_listed(RESCHEDULE@, n, ps, "not_before"@, 26, 0);
    lemma_binds_listed(RESCHEDULE@, n, ps, "eligible_since"@, 40, 1);
    lemma_binds_listed(RESCHEDULE@, n, ps, "tenant_id"@, 63, 2);
    lemma_binds_listed(RESCHEDULE@, n, ps, "queue_id"@, 79, 3);
}

/// Where the columns of `DELETE_LEASE_BEARERS` stand.
proof fn lemma_delete_lease_bearers_columns()
    ensures
        takes_at(DELETE_LEASE_BEARERS@, "tenant_id"@, 41, 0),
        takes_at(DELETE_LEASE_BEARERS@, "queue_id"@, 57, 1),
        DELETE_LEASE_BEARERS@.len() == 82,
{
    let sql = DELETE_LEASE_BEARERS@;
    reveal_strlit(
        "DELETE FROM fireweed_lease_bearers WHERE tenant_id=? AND queue_id=? AND item_id IN",
    );
    reveal_strlit("queue_id");
    reveal_strlit("tenant_id");
    assert(marks(sql, 44) == 0) by {
        reveal_with_fuel(marks, 46);
    }
    assert(marks(sql, 51) == 0) by {
        reveal_with_fuel(marks, 9);
    }
    assert(marks(sql, 66) == 1) by {
        reveal_with_fuel(marks, 17);
    }
    assert(sql.subrange(41, 52) =~= "tenant_id"@ + seq!['=', '?']);
    assert(sql.subrange(57, 67) =~= "queue_id"@ + seq!['=', '?']);
}

/// What `DELETE_LEASE_BEARERS` binds, over any list.
pub proof fn lemma_delete_lease_bearers(n: nat, ps: Seq<CellV>)
    requires
        ps.len() >= 2,
    ensures
        binds(listed(DELETE_LEASE_BEARERS@, n, Seq::empty()), ps, "tenant_id"@, ps[0]),
        binds(listed(DELETE_LEASE_BEARERS@, n, Seq::empty()), ps, "queue_id"@, ps[1]),
{
    lemma_delete_lease_bearers_columns();
    reveal_strlit("queue_id");
    reveal_strlit("tenant_id");
    lemma_binds_listed(DELETE_LEASE_BEARERS@, n, ps, "tenant_id"@, 41, 0);
    lemma_binds_listed(DELETE_LEASE_BEARERS@, n, ps, "queue_id"@, 57, 1);
}

/// Where the columns of `FUSE_RANGE` stand.
proof fn lemma_fuse_range_columns()
    ensures
        takes_at(FUSE_RANGE@, "terminal_at"@, 309, 0),
        takes_at(FUSE_RANGE@, "terminal_command_epoch"@, 325, 1),
        takes_at(FUSE_RANGE@, "updated_at"@, 352, 2),
        takes_at(FUSE_RANGE@, "last_command_sequence"@, 367, 3),
        takes_at(FUSE_RANGE@, "tenant_id"@, 398, 4),
        takes_at(FUSE_RANGE@, "queue_id"@, 415, 5),
        takes_at(FUSE_RANGE@, "lease_token_hash"@, 536, 8),
        FUSE_RANGE@.len() == 557,
{
    let sql = FUSE_RANGE@;
    reveal_strlit(
        "UPDATE fireweed_items SET lifecycle_state='Complete', lease_token_hash=NULL, lease_expires_at=NULL, worker_id=NULL, fenced=0, retry_count=CASE WHEN lifecycle_state='Pending' THEN retry_count+1 ELSE retry_count END, item_version=CASE WHEN lifecycle_state='Pending' THEN item_version+2 ELSE item_version+1 END, terminal_at=?1, terminal_command_epoch=?2, updated_at=?3, last_command_sequence=?4 WHERE tenant_id=?5 AND queue_id=?6 AND rowid BETWEEN ?7 AND ?8 AND superseded=0 AND (lifecycle_state='Pending' OR (lifecycle_state='Leased' AND lease_token_hash=?9))",
    );
    reveal_strlit("last_command_sequence");
    reveal_strlit("lease_token_hash");
    reveal_strlit("queue_id");
    reveal_strlit("tenant_id");
    reveal_strlit("terminal_at");
    reveal_strlit("terminal_command_epoch");
    reveal_strlit("updated_at");
    assert(sql.subrange(309, 322) =~= "terminal_at"@ + seq!['=', '?']);
    assert(sql.subrange(325, 349) =~= "terminal_command_epoch"@ + seq!['=', '?']);
    assert(sql.subrange(352, 364) =~= "updated_at"@ + seq!['=', '?']);
    assert(sql.subrange(367, 390) =~= "last_command_sequence"@ + seq!['=', '?']);
    assert(sql.subrange(398, 409) =~= "tenant_id"@ + seq!['=', '?']);
    assert(sql.subrange(415, 425) =~= "queue_id"@ + seq!['=', '?']);
    assert(sql.subrange(536, 554) =~= "lease_token_hash"@ + seq!['=', '?']);
}

/// What `FUSE_RANGE` binds.
pub proof fn lemma_fuse_range(ps: Seq<CellV>)
    requires
        ps.len() >= 9,
    ensures
        binds(FUSE_RANGE@, ps, "terminal_at"@, ps[0]),
        binds(FUSE_RANGE@, ps, "terminal_command_epoch"@, ps[1]),
        binds(FUSE_RANGE@, ps, "updated_at"@, ps[2]),
        binds(FUSE_RANGE@, ps, "last_command_sequence"@, ps[3]),
        binds(FUSE_RANGE@, ps, "tenant_id"@, ps[4]),
        binds(FUSE_RANGE@, ps, "queue_id"@, ps[5]),
        binds(FUSE_RANGE@, ps, "lease_token_hash"@, ps[8]),
{
    lemma_fuse_range_columns();
    assert(takes_at(FUSE_RANGE@, "terminal_at"@, 309, 0));
    assert(takes_at(FUSE_RANGE@, "terminal_command_epoch"@, 325, 1));
    assert(takes_at(FUSE_RANGE@, "updated_at"@, 352, 2));
    assert(takes_at(FUSE_RANGE@, "last_command_sequence"@, 367, 3));
    assert(takes_at(FUSE_RANGE@, "tenant_id"@, 398, 4));
    assert(takes_at(FUSE_RANGE@, "queue_id"@, 415, 5));
    assert(takes_at(FUSE_RANGE@, "lease_token_hash"@, 536, 8));
}

/// Where the columns of `FUSE_ITEMS` stand.
proof fn lemma_fuse_items_columns()
    ensures
        takes_at(FUSE_ITEMS@, "terminal_at"@, 309, 0),
        takes_at(FUSE_ITEMS@, "terminal_command_epoch"@, 324, 1),
        takes_at(FUSE_ITEMS@, "updated_at"@, 350, 2),
        takes_at(FUSE_ITEMS@, "last_command_sequence"@, 364, 3),
        takes_at(FUSE_ITEMS@, "tenant_id"@, 394, 4),
        takes_at(FUSE_ITEMS@, "queue_id"@, 410, 5),
        takes_at(FUSE_ITEMS@, "lease_token_hash"@, 502, 6),
        FUSE_ITEMS@.len() == 537,
{
    let sql = FUSE_ITEMS@;
    reveal_strlit(
        "UPDATE fireweed_items SET lifecycle_state='Complete', lease_token_hash=NULL, lease_expires_at=NULL, worker_id=NULL, fenced=0, retry_count=CASE WHEN lifecycle_state='Pending' THEN retry_count+1 ELSE retry_count END, item_version=CASE WHEN lifecycle_state='Pending' THEN item_version+2 ELSE item_version+1 END, terminal_at=?, terminal_command_epoch=?, updated_at=?, last_command_sequence=? WHERE tenant_id=? AND queue_id=? AND superseded=0 AND (lifecycle_state='Pending' OR (lifecycle_state='Leased' AND lease_token_hash=?)) AND item_id IN",
    );
    reveal_strlit("last_command_sequence");
    reveal_strlit("lease_token_hash");
    reveal_strlit("queue_id");
    reveal_strlit("tenant_id");
    reveal_strlit("terminal_at");
    reveal_strlit("terminal_command_epoch");
    reveal_strlit("updated_at");
    assert(marks(sql, 44) == 0) by {
        reveal_with_fuel(marks, 46);
    }
    assert(marks(sql, 88) == 0) by {
        reveal_with_fuel(marks, 46);
    }
    assert(marks(sql, 132) == 0) by {
        reveal_with_fuel(marks, 46);
    }
    assert(marks(sql, 176) == 0) by {
        reveal_with_fuel(marks, 46);
    }
    assert(marks(sql, 220) == 0) by {
        reveal_with_fuel(marks, 46);
    }
    assert(marks(sql, 264) == 0) by {
        reveal_with_fuel(marks, 46);
    }
    assert(marks(sql, 308) == 0) by {
        reveal_with_fuel(marks, 46);
    }
    assert(marks(sql, 321) == 0) by {
        reveal_with_fuel(marks, 15);
    }
    assert(marks(sql, 347) == 1) by {
        reveal_with_fuel(marks, 28);
    }
    assert(marks(sql, 361) == 2) by {
        reveal_with_fuel(marks, 16);
    }
    assert(marks(sql, 386) == 3) by {
        reveal_with_fuel(marks, 27);
    }
    assert(marks(sql, 404) == 4) by {
        reveal_with_fuel(marks, 20);
    }
    assert(marks(sql, 419) == 5) by {
        reveal_with_fuel(marks, 17);
    }
    assert(marks(sql, 463) == 6) by {
        reveal_with_fuel(marks, 46);
    }
    assert(marks(sql, 507) == 6) by {
        reveal_with_fuel(marks, 46);
    }
    assert(marks(sql, 519) == 6) by {
        reveal_with_fuel(marks, 14);
    }
    assert(sql.subrange(309, 322) =~= "terminal_at"@ + seq!['=', '?']);
    assert(sql.subrange(324, 348) =~= "terminal_command_epoch"@ + seq!['=', '?']);
    assert(sql.subrange(350, 362) =~= "updated_at"@ + seq!['=', '?']);
    assert(sql.subrange(364, 387) =~= "last_command_sequence"@ + seq!['=', '?']);
    assert(sql.subrange(394, 405) =~= "tenant_id"@ + seq!['=', '?']);
    assert(sql.subrange(410, 420) =~= "queue_id"@ + seq!['=', '?']);
    assert(sql.subrange(502, 520) =~= "lease_token_hash"@ + seq!['=', '?']);
}

/// What `FUSE_ITEMS` binds, over any list.
pub proof fn lemma_fuse_items(n: nat, ps: Seq<CellV>)
    requires
        ps.len() >= 7,
    ensures
        binds(listed(FUSE_ITEMS@, n, Seq::empty()), ps, "terminal_at"@, ps[0]),
        binds(listed(FUSE_ITEMS@, n, Seq::empty()), ps, "terminal_command_epoch"@, ps[1]),
        binds(listed(FUSE_ITEMS@, n, Seq::empty()), ps, "updated_at"@, ps[2]),
        binds(listed(FUSE_ITEMS@, n, Seq::empty()), ps, "last_command_sequence"@, ps[3]),
        binds(listed(FUSE_ITEMS@, n, Seq::empty()), ps, "tenant_id"@, ps[4]),
        binds(listed(FUSE_ITEMS@, n, Seq::empty()), ps, "queue_id"@, ps[5]),
        binds(listed(FUSE_ITEMS@, n, Seq::empty()), ps, "lease_token_hash"@, ps[6]),
{
    lemma_fuse_items_columns();
    reveal_strlit("last_command_sequence");
    reveal_strlit("lease_token_hash");
    reveal_strlit("queue_id");
    reveal_strlit("tenant_id");
    reveal_strlit("terminal_at");
    reveal_strlit("terminal_command_epoch");
    reveal_strlit("updated_at");
    lemma_binds_listed(FUSE_ITEMS@, n, ps, "terminal_at"@, 309, 0);
    lemma_binds_listed(FUSE_ITEMS@, n, ps, "terminal_command_epoch"@, 324, 1);
    lemma_binds_listed(FUSE_ITEMS@, n, ps, "updated_at"@, 350, 2);
    lemma_binds_listed(FUSE_ITEMS@, n, ps, "last_command_sequence"@, 364, 3);
    lemma_binds_listed(FUSE_ITEMS@, n, ps, "tenant_id"@, 394, 4);
    lemma_binds_listed(FUSE_ITEMS@, n, ps, "queue_id"@, 410, 5);
    lemma_binds_listed(FUSE_ITEMS@, n, ps, "lease_token_hash"@, 502, 6);
}

} // verus!
