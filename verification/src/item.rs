//! One item of a queue, as the projection holds it and as it is exported.

use crate::json::JsonV;
use crate::shared::share;
use crate::text::{clone_opt_text, decimal, numeral, opt_text, same_text, texts};
use crate::types::{CommandPosition, Entity, EntityV, FieldMap, ItemId, ItemState, Metadata, PositionV, PriorityV, PriorityValue, PushItem, UtcTimestamp, clone_opt_position, clone_opt_priority, epoch_start, field_bytes, metadata_of, opt_bytes, opt_doc, opt_position, opt_priority, share_opt_bytes, share_opt_doc};
use bytes::Bytes;
use std::sync::Arc;
use vstd::prelude::*;

verus! {

/// The state of one item.
pub struct ItemRecord {
    pub item_id: ItemId,
    /// The client's key, where it differs from the item's own numeral.
    pub explicit_client_item_key: Option<String>,
    pub priority: Option<PriorityValue>,
    pub not_before: Option<UtcTimestamp>,
    /// When the item last became eligible by its schedule. Gates do not move it.
    pub eligible_since: UtcTimestamp,
    pub group_key: Option<String>,
    pub cohort_size: Option<u64>,
    pub payload: Option<Bytes>,
    pub fields: Arc<FieldMap>,
    pub metadata: Arc<Metadata>,
    pub gate_keys: Arc<Vec<String>>,
    pub entity_document: Option<Arc<Entity>>,
    pub state: ItemState,
    pub item_version: u64,
    pub attempt_count: u32,
    pub max_attempts: u32,
    pub created_seq: u64,
    pub lease_token: Option<String>,
    pub lease_expires_at: Option<UtcTimestamp>,
    pub lease_is_cohort: bool,
    pub worker_id: Option<String>,
    pub fenced: bool,
    pub superseded: bool,
    pub terminal_at: Option<UtcTimestamp>,
    pub terminal_position: Option<CommandPosition>,
}

/// What an item record holds.
pub ghost struct Item {
    pub item_id: ItemId,
    pub explicit_key: Option<Seq<char>>,
    pub priority: Option<PriorityV>,
    pub not_before: Option<UtcTimestamp>,
    pub eligible_since: UtcTimestamp,
    pub group_key: Option<Seq<char>>,
    pub cohort_size: Option<u64>,
    pub payload: Option<Seq<u8>>,
    pub fields: Map<Seq<char>, Seq<u8>>,
    pub metadata: Map<Seq<char>, JsonV>,
    pub gate_keys: Seq<Seq<char>>,
    pub entity: Option<EntityV>,
    pub state: ItemState,
    pub item_version: u64,
    pub attempt_count: u32,
    pub max_attempts: u32,
    pub created_seq: u64,
    pub lease_token: Option<Seq<char>>,
    pub lease_expires_at: Option<UtcTimestamp>,
    pub lease_is_cohort: bool,
    pub worker_id: Option<Seq<char>>,
    pub fenced: bool,
    pub superseded: bool,
    pub terminal_at: Option<UtcTimestamp>,
    pub terminal_position: Option<PositionV>,
}

impl ItemRecord {
    pub open spec fn view(&self) -> Item {
        Item {
            item_id: self.item_id,
            explicit_key: opt_text(self.explicit_client_item_key),
            priority: opt_priority(self.priority),
            not_before: self.not_before,
            eligible_since: self.eligible_since,
            group_key: opt_text(self.group_key),
            cohort_size: self.cohort_size,
            payload: opt_bytes(self.payload),
            fields: field_bytes(*self.fields),
            metadata: metadata_of(*self.metadata),
            gate_keys: texts(self.gate_keys@),
            entity: opt_doc(self.entity_document),
            state: self.state,
            item_version: self.item_version,
            attempt_count: self.attempt_count,
            max_attempts: self.max_attempts,
            created_seq: self.created_seq,
            lease_token: opt_text(self.lease_token),
            lease_expires_at: self.lease_expires_at,
            lease_is_cohort: self.lease_is_cohort,
            worker_id: opt_text(self.worker_id),
            fenced: self.fenced,
            superseded: self.superseded,
            terminal_at: self.terminal_at,
            terminal_position: opt_position(self.terminal_position),
        }
    }

    /// The key that clients know the item by: their own, or the item's numeral.
    pub fn client_item_key(&self) -> (r: String)
        ensures
            r@ == client_key(self@),
    {
        match &self.explicit_client_item_key {
            Some(k) => k.clone(),
            None => decimal(self.item_id),
        }
    }

    /// A second record that holds the same.
    pub fn duplicate(&self) -> (r: ItemRecord)
        ensures
            r@ == self@,
    {
        ItemRecord {
            item_id: self.item_id,
            explicit_client_item_key: clone_opt_text(&self.explicit_client_item_key),
            priority: clone_opt_priority(&self.priority),
            not_before: self.not_before,
            eligible_since: self.eligible_since,
            group_key: clone_opt_text(&self.group_key),
            cohort_size: self.cohort_size,
            payload: share_opt_bytes(&self.payload),
            fields: share(&self.fields),
            metadata: share(&self.metadata),
            gate_keys: share(&self.gate_keys),
            entity_document: share_opt_doc(&self.entity_document),
            state: self.state,
            item_version: self.item_version,
            attempt_count: self.attempt_count,
            max_attempts: self.max_attempts,
            created_seq: self.created_seq,
            lease_token: clone_opt_text(&self.lease_token),
            lease_expires_at: self.lease_expires_at,
            lease_is_cohort: self.lease_is_cohort,
            worker_id: clone_opt_text(&self.worker_id),
            fenced: self.fenced,
            superseded: self.superseded,
            terminal_at: self.terminal_at,
            terminal_position: clone_opt_position(self.terminal_position.as_ref()),
        }
    }
}

pub open spec fn client_key(i: Item) -> Seq<char> {
    match i.explicit_key {
        Some(k) => k,
        None => numeral(i.item_id as nat),
    }
}

/// The key to store for an item: none where it is the item's own numeral.
pub open spec fn explicit_key_of(item_id: ItemId, key: Seq<char>) -> Option<Seq<char>> {
    if key == numeral(item_id as nat) {
        None
    } else {
        Some(key)
    }
}

pub fn explicit_client_item_key(item_id: ItemId, key: String) -> (r: Option<String>)
    ensures
        opt_text(r) == explicit_key_of(item_id, key@),
{
    if same_text(key.as_str(), decimal(item_id).as_str()) {
        None
    } else {
        Some(key)
    }
}

/// What a pushed item holds.
pub ghost struct PushV {
    pub client_item_key: Seq<char>,
    pub item_id: ItemId,
    pub priority: Option<PriorityV>,
    pub not_before: Option<UtcTimestamp>,
    pub group_key: Option<Seq<char>>,
    pub max_attempts: u32,
    pub payload: Option<Seq<u8>>,
    pub fields: Map<Seq<char>, Seq<u8>>,
    pub metadata: Map<Seq<char>, JsonV>,
    pub cohort_size: Option<u64>,
    pub gate_keys: Seq<Seq<char>>,
    pub entity: Option<EntityV>,
}

impl PushItem {
    pub open spec fn view(&self) -> PushV {
        PushV {
            client_item_key: self.client_item_key@,
            item_id: self.item_id,
            priority: opt_priority(self.priority),
            not_before: self.not_before,
            group_key: opt_text(self.group_key),
            max_attempts: self.max_attempts,
            payload: opt_bytes(self.payload),
            fields: field_bytes(*self.fields),
            metadata: metadata_of(*self.metadata),
            cohort_size: self.cohort_size,
            gate_keys: texts(self.gate_keys@),
            entity: opt_doc(self.entity_document),
        }
    }
}

/// The item that a push makes: pending, first version, no delivery yet. It ages from its schedule,
/// or else from the command.
pub open spec fn pushed_item(p: PushV, seq: u64, at: Option<UtcTimestamp>) -> Item {
    Item {
        item_id: p.item_id,
        explicit_key: explicit_key_of(p.item_id, p.client_item_key),
        priority: p.priority,
        not_before: p.not_before,
        eligible_since: match p.not_before {
            Some(nb) => nb,
            None => match at {
                Some(t) => t,
                None => epoch_start(),
            },
        },
        group_key: p.group_key,
        cohort_size: p.cohort_size,
        payload: p.payload,
        fields: p.fields,
        metadata: p.metadata,
        gate_keys: p.gate_keys,
        entity: p.entity,
        state: ItemState::Pending,
        item_version: 1,
        attempt_count: 0,
        max_attempts: p.max_attempts,
        created_seq: seq,
        lease_token: None,
        lease_expires_at: None,
        lease_is_cohort: false,
        worker_id: None,
        fenced: false,
        superseded: false,
        terminal_at: None,
        terminal_position: None,
    }
}

pub fn record_of_push(item: &PushItem, seq: u64, at: Option<UtcTimestamp>) -> (r: ItemRecord)
    ensures
        r@ == pushed_item(item@, seq, at),
{
    let eligible_since = match item.not_before {
        Some(nb) => nb,
        None => match at {
            Some(t) => t,
            None => UtcTimestamp { seconds: 0, nanoseconds: 0 },
        },
    };
    ItemRecord {
        item_id: item.item_id,
        explicit_client_item_key: explicit_client_item_key(
            item.item_id,
            item.client_item_key.clone(),
        ),
        priority: clone_opt_priority(&item.priority),
        not_before: item.not_before,
        eligible_since,
        group_key: clone_opt_text(&item.group_key),
        cohort_size: item.cohort_size,
        payload: share_opt_bytes(&item.payload),
        fields: share(&item.fields),
        metadata: share(&item.metadata),
        gate_keys: share(&item.gate_keys),
        entity_document: share_opt_doc(&item.entity_document),
        state: ItemState::Pending,
        item_version: 1,
        attempt_count: 0,
        max_attempts: item.max_attempts,
        created_seq: seq,
        lease_token: None,
        lease_expires_at: None,
        lease_is_cohort: false,
        worker_id: None,
        fenced: false,
        superseded: false,
        terminal_at: None,
        terminal_position: None,
    }
}

} // verus!
