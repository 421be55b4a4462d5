//! Statements shared by the relational projection drivers.

use vstd::prelude::*;

pub mod async_projection;

verus! {

/// Read the durable projection cursor for one queue.
pub const SELECT_RELATIONAL_CURSOR: &'static str =
    "SELECT next_seq, assignment_epoch FROM relational_cursor WHERE tenant=?1 AND queue=?2";

/// Read materialized item identifiers for counter restoration.
pub const SELECT_MATERIALIZED_ITEM_IDS: &'static str =
    "SELECT item_id FROM fireweed_items WHERE tenant_id=?1 AND queue_id=?2";

} // verus!
