//! What a queue's projection tells of its items.

use crate::eligibility::{EligKey, by_locality, candidates_after, due_keys, first_of, items_of, key_of, ordered_after};
use crate::item::{Item, ItemRecord, client_key};
use crate::json::JsonV;
use crate::model::{Model, gated};
use crate::order::{OrdSet, ascending, listing_of};
use crate::projection::{ProjectionData, gate_keys_blocked};
use crate::shared::{bytes_of, fx_keys, share};
use crate::text::{clone_opt_text, opt_text, parse_unsigned, parsed_unsigned, same_text, texts};
use crate::types::{EngineError, EngineResult, ErrorV, FieldMap, FinalizeOutcome, ItemId, ItemState, Metadata, OrderingMode, PriorityV, PriorityValue, QueueMetrics, UtcTimestamp, clone_opt_priority, field_bytes, metadata_of, opt_bytes, opt_priority, outcome, share_opt_bytes, ts_lt};
use bytes::Bytes;
use std::sync::Arc;
use vstd::prelude::*;

verus! {

/// What the items under some identifiers show, in order. Those that are missing, or show nothing,
/// are passed over.
pub open spec fn picked<V>(
    items: Map<ItemId, Item>,
    ids: Seq<ItemId>,
    f: spec_fn(Item) -> Option<V>,
) -> Seq<V>
    decreases ids.len(),
{
    if ids.len() == 0 {
        Seq::empty()
    } else {
        let before = picked(items, ids.drop_last(), f);
        if items.contains_key(ids.last()) {
            match f(items[ids.last()]) {
                Some(v) => before.push(v),
                None => before,
            }
        } else {
            before
        }
    }
}

/// What is shown of the first identifiers comes first.
pub proof fn lemma_picked_prefix<V>(
    items: Map<ItemId, Item>,
    ids: Seq<ItemId>,
    f: spec_fn(Item) -> Option<V>,
    k: int,
)
    requires
        0 <= k <= ids.len(),
    ensures
        picked(items, ids.take(k), f).len() <= picked(items, ids, f).len(),
        picked(items, ids.take(k), f) == picked(items, ids, f).take(
            picked(items, ids.take(k), f).len() as int,
        ),
    decreases ids.len(),
{
    if k == ids.len() {
        assert(ids.take(k) =~= ids);
        assert(picked(items, ids, f) =~= picked(items, ids, f).take(
            picked(items, ids, f).len() as int,
        ));
    } else {
        lemma_picked_prefix(items, ids.drop_last(), f, k);
        assert(ids.drop_last().take(k) =~= ids.take(k));
        let p = picked(items, ids.take(k), f);
        assert(p =~= picked(items, ids, f).take(p.len() as int));
    }
}

/// An item in the order of the queue.
#[derive(Debug)]
pub struct ItemView {
    pub item_id: ItemId,
    pub client_item_key: String,
    pub priority: Option<PriorityValue>,
    pub item_version: u64,
}

pub ghost struct ItemViewV {
    pub item_id: ItemId,
    pub client_item_key: Seq<char>,
    pub priority: Option<PriorityV>,
    pub item_version: u64,
}

impl ItemView {
    pub open spec fn view(&self) -> ItemViewV {
        ItemViewV {
            item_id: self.item_id,
            client_item_key: self.client_item_key@,
            priority: opt_priority(self.priority),
            item_version: self.item_version,
        }
    }
}

pub open spec fn item_views_v(v: Seq<ItemView>) -> Seq<ItemViewV> {
    v.map_values(|x: ItemView| x@)
}

/// A pending item as it is peeked at.
pub open spec fn peeked() -> spec_fn(Item) -> Option<ItemViewV> {
    |i: Item|
        if i.state is Pending && !i.superseded {
            Some(
                ItemViewV {
                    item_id: i.item_id,
                    client_item_key: client_key(i),
                    priority: i.priority,
                    item_version: i.item_version,
                },
            )
        } else {
            None
        }
}

/// A page of the pending items after one of them.
pub open spec fn page_peeked(m: Model, after: Option<ItemId>, limit: nat) -> Seq<ItemViewV> {
    picked(
        m.items,
        ordered_after(
            m.eligible,
            m.compact,
            match after {
                Some(id) => if m.items.contains_key(id) {
                    Some(key_of(m.items[id], m.priority_model))
                } else {
                    None
                },
                None => None,
            },
            limit,
        ),
        peeked(),
    )
}

/// A lease, to those who may see its token.
#[derive(Debug)]
pub struct LeaseView {
    pub item_id: ItemId,
    pub lease_token: String,
    pub lease_expires_at: UtcTimestamp,
    pub attempt_count: u32,
}

pub ghost struct LeaseViewV {
    pub item_id: ItemId,
    pub lease_token: Seq<char>,
    pub lease_expires_at: UtcTimestamp,
    pub attempt_count: u32,
}

impl LeaseView {
    pub open spec fn view(&self) -> LeaseViewV {
        LeaseViewV {
            item_id: self.item_id,
            lease_token: self.lease_token@,
            lease_expires_at: self.lease_expires_at,
            attempt_count: self.attempt_count,
        }
    }
}

pub open spec fn lease_views_v(v: Seq<LeaseView>) -> Seq<LeaseViewV> {
    v.map_values(|x: LeaseView| x@)
}

/// The lease columns of an item, if they are there.
pub open spec fn lease_of(i: Item) -> Option<LeaseViewV> {
    if i.lease_token is Some && i.lease_expires_at is Some {
        Some(
            LeaseViewV {
                item_id: i.item_id,
                lease_token: i.lease_token->Some_0,
                lease_expires_at: i.lease_expires_at->Some_0,
                attempt_count: i.attempt_count,
            },
        )
    } else {
        None
    }
}

/// The lease of an item that is leased now.
pub open spec fn live_lease() -> spec_fn(Item) -> Option<LeaseViewV> {
    |i: Item|
        if i.state is Leased && !i.superseded {
            lease_of(i)
        } else {
            None
        }
}

/// The lease that an item's columns hold.
pub open spec fn stored_lease() -> spec_fn(Item) -> Option<LeaseViewV> {
    |i: Item| lease_of(i)
}

/// A claimed item, as its worker gets it.
pub struct ClaimedItem {
    pub item_id: ItemId,
    pub client_item_key: String,
    pub item_version: u64,
    pub priority: Option<PriorityValue>,
    pub group_key: Option<String>,
    pub not_before: Option<UtcTimestamp>,
    pub lease_token: Option<String>,
    pub lease_expires_at: UtcTimestamp,
    pub attempt_count: u32,
    pub payload: Option<Bytes>,
    pub fields: Arc<FieldMap>,
    pub metadata: Arc<Metadata>,
    pub gate_keys: Arc<Vec<String>>,
}

pub ghost struct ClaimedItemV {
    pub item_id: ItemId,
    pub client_item_key: Seq<char>,
    pub item_version: u64,
    pub priority: Option<PriorityV>,
    pub group_key: Option<Seq<char>>,
    pub not_before: Option<UtcTimestamp>,
    pub lease_token: Option<Seq<char>>,
    pub lease_expires_at: UtcTimestamp,
    pub attempt_count: u32,
    pub payload: Option<Seq<u8>>,
    pub fields: Map<Seq<char>, Seq<u8>>,
    pub metadata: Map<Seq<char>, JsonV>,
    pub gate_keys: Seq<Seq<char>>,
}

impl ClaimedItem {
    pub open spec fn view(&self) -> ClaimedItemV {
        ClaimedItemV {
            item_id: self.item_id,
            client_item_key: self.client_item_key@,
            item_version: self.item_version,
            priority: opt_priority(self.priority),
            group_key: opt_text(self.group_key),
            not_before: self.not_before,
            lease_token: opt_text(self.lease_token),
            lease_expires_at: self.lease_expires_at,
            attempt_count: self.attempt_count,
            payload: opt_bytes(self.payload),
            fields: field_bytes(*self.fields),
            metadata: metadata_of(*self.metadata),
            gate_keys: texts(self.gate_keys@),
        }
    }
}

pub open spec fn claimed_items_v(v: Seq<ClaimedItem>) -> Seq<ClaimedItemV> {
    v.map_values(|x: ClaimedItem| x@)
}

/// An item with its lease, as its worker gets it.
pub open spec fn as_claimed() -> spec_fn(Item) -> Option<ClaimedItemV> {
    |i: Item|
        if i.lease_token is Some && i.lease_expires_at is Some {
            Some(
                ClaimedItemV {
                    item_id: i.item_id,
                    client_item_key: client_key(i),
                    item_version: i.item_version,
                    priority: i.priority,
                    group_key: i.group_key,
                    not_before: i.not_before,
                    lease_token: i.lease_token,
                    lease_expires_at: i.lease_expires_at->Some_0,
                    attempt_count: i.attempt_count,
                    payload: i.payload,
                    fields: i.fields,
                    metadata: i.metadata,
                    gate_keys: i.gate_keys,
                },
            )
        } else {
            None
        }
}

/// An item that is still in play.
pub struct LiveItemView {
    pub item_id: ItemId,
    pub client_item_key: String,
    pub item_version: u64,
    pub lifecycle_state: ItemState,
    pub priority: Option<PriorityValue>,
    pub group_key: Option<String>,
    pub not_before: Option<UtcTimestamp>,
    pub attempt_count: u32,
    pub payload: Option<Bytes>,
    pub fields: Arc<FieldMap>,
}

pub ghost struct LiveItemV {
    pub item_id: ItemId,
    pub client_item_key: Seq<char>,
    pub item_version: u64,
    pub lifecycle_state: ItemState,
    pub priority: Option<PriorityV>,
    pub group_key: Option<Seq<char>>,
    pub not_before: Option<UtcTimestamp>,
    pub attempt_count: u32,
    pub payload: Option<Seq<u8>>,
    pub fields: Map<Seq<char>, Seq<u8>>,
}

impl LiveItemView {
    pub open spec fn view(&self) -> LiveItemV {
        LiveItemV {
            item_id: self.item_id,
            client_item_key: self.client_item_key@,
            item_version: self.item_version,
            lifecycle_state: self.lifecycle_state,
            priority: opt_priority(self.priority),
            group_key: opt_text(self.group_key),
            not_before: self.not_before,
            attempt_count: self.attempt_count,
            payload: opt_bytes(self.payload),
            fields: field_bytes(*self.fields),
        }
    }
}

pub open spec fn as_live(i: Item) -> Option<LiveItemV> {
    if i.superseded || i.state.terminal() {
        None
    } else {
        Some(
            LiveItemV {
                item_id: i.item_id,
                client_item_key: client_key(i),
                item_version: i.item_version,
                lifecycle_state: i.state,
                priority: i.priority,
                group_key: i.group_key,
                not_before: i.not_before,
                attempt_count: i.attempt_count,
                payload: i.payload,
                fields: i.fields,
            },
        )
    }
}

impl ItemRecord {
    pub fn peek_view(&self) -> (r: Option<ItemView>)
        ensures
            (match r {
                Some(v) => Some(v@),
                None => None,
            }) == peeked()(self@),
    {
        match self.state {
            ItemState::Pending => {
                if self.superseded {
                    return None;
                }
                Some(
                    ItemView {
                        item_id: self.item_id,
                        client_item_key: self.client_item_key(),
                        priority: clone_opt_priority(&self.priority),
                        item_version: self.item_version,
                    },
                )
            },
            _ => None,
        }
    }

    pub fn lease_columns(&self) -> (r: Option<LeaseView>)
        ensures
            (match r {
                Some(v) => Some(v@),
                None => None,
            }) == lease_of(self@),
    {
        match (&self.lease_token, self.lease_expires_at) {
            (Some(t), Some(e)) => Some(
                LeaseView {
                    item_id: self.item_id,
                    lease_token: t.clone(),
                    lease_expires_at: e,
                    attempt_count: self.attempt_count,
                },
            ),
            _ => None,
        }
    }

    pub fn lease_view(&self) -> (r: Option<LeaseView>)
        ensures
            (match r {
                Some(v) => Some(v@),
                None => None,
            }) == live_lease()(self@),
    {
        match self.state {
            ItemState::Leased => if self.superseded {
                None
            } else {
                self.lease_columns()
            },
            _ => None,
        }
    }

    pub fn to_claimed(&self) -> (r: Option<ClaimedItem>)
        ensures
            (match r {
                Some(v) => Some(v@),
                None => None,
            }) == as_claimed()(self@),
    {
        match (&self.lease_token, self.lease_expires_at) {
            (Some(t), Some(e)) => Some(
                ClaimedItem {
                    item_id: self.item_id,
                    client_item_key: self.client_item_key(),
                    item_version: self.item_version,
                    priority: clone_opt_priority(&self.priority),
                    group_key: clone_opt_text(&self.group_key),
                    not_before: self.not_before,
                    lease_token: Some(t.clone()),
                    lease_expires_at: e,
                    attempt_count: self.attempt_count,
                    payload: share_opt_bytes(&self.payload),
                    fields: share(&self.fields),
                    metadata: share(&self.metadata),
                    gate_keys: share(&self.gate_keys),
                },
            ),
            _ => None,
        }
    }

    pub fn to_live(&self) -> (r: Option<LiveItemView>)
        ensures
            (match r {
                Some(v) => Some(v@),
                None => None,
            }) == as_live(self@),
    {
        if self.superseded || self.state.is_terminal() {
            return None;
        }
        Some(
            LiveItemView {
                item_id: self.item_id,
                client_item_key: self.client_item_key(),
                item_version: self.item_version,
                lifecycle_state: self.state,
                priority: clone_opt_priority(&self.priority),
                group_key: clone_opt_text(&self.group_key),
                not_before: self.not_before,
                attempt_count: self.attempt_count,
                payload: share_opt_bytes(&self.payload),
                fields: share(&self.fields),
            },
        )
    }
}

/// How far from strict order a queue's selection may stray.
pub open spec fn rank_bound(m: Model) -> u32 {
    match m.ordering_mode {
        OrderingMode::BoundedRelaxed => m.max_rank_error,
        OrderingMode::Strict => 0,
    }
}

/// The items to claim next: none while the queue is paused, else the first that are due, by place;
/// where the queue allows it, those of one group side by side within the bound.
pub open spec fn candidates(m: Model, now: UtcTimestamp, max: nat) -> Seq<ItemId> {
    if m.paused {
        Seq::empty()
    } else {
        let due_now = due_keys(listing_of::<EligKey>(m.eligible), now, max);
        items_of(
            if rank_bound(m) == 0 {
                due_now
            } else {
                by_locality(due_now, rank_bound(m) as nat + 1)
            },
        )
    }
}

/// The items to claim after one that was selected before.
pub open spec fn candidates_past(
    m: Model,
    now: UtcTimestamp,
    after: Option<ItemId>,
    max: nat,
) -> Seq<ItemId> {
    if m.paused || max == 0 {
        Seq::empty()
    } else if rank_bound(m) != 0 || after is None || !m.items.contains_key(after->Some_0) {
        candidates(m, now, max)
    } else {
        candidates_after(
            m.eligible,
            m.compact,
            now,
            key_of(m.items[after->Some_0], m.priority_model),
            max,
        )
    }
}

/// The item that a client's key stands for: the one under it, or else a live item whose numeral it
/// is.
pub open spec fn item_for_key(m: Model, key: Seq<char>) -> Option<ItemId> {
    if m.by_key.contains_key(key) {
        Some(m.by_key[key])
    } else {
        match parsed_unsigned(key, u64::MAX as nat) {
            None => None,
            Some(n) => if m.items.contains_key(n as u64) && !m.items[n as u64].superseded {
                Some(n as u64)
            } else {
                None
            },
        }
    }
}

/// Whether an item can be claimed by its identifier, and if not why.
#[derive(Clone, Copy, PartialEq, Eq, Structural, Debug)]
pub enum ClaimByItemIdClass {
    NotFound,
    Terminal,
    Leased,
    NotEligible,
    Claimable,
}

pub open spec fn claim_class(m: Model, id: ItemId, now: UtcTimestamp) -> ClaimByItemIdClass {
    if !m.items.contains_key(id) || m.items[id].superseded {
        ClaimByItemIdClass::NotFound
    } else {
        let i = m.items[id];
        match i.state {
            ItemState::Complete => ClaimByItemIdClass::Terminal,
            ItemState::Failed => ClaimByItemIdClass::Terminal,
            ItemState::Leased => ClaimByItemIdClass::Leased,
            ItemState::Pending => if m.paused || (i.not_before is Some && ts_lt(
                now,
                i.not_before->Some_0,
            )) || gated(m.blocked_gates, i.gate_keys) {
                ClaimByItemIdClass::NotEligible
            } else {
                ClaimByItemIdClass::Claimable
            },
        }
    }
}

/// Why an item's lease cannot be acted on, if so.
pub open spec fn lease_fault(m: Model, id: ItemId) -> Option<ErrorV> {
    if !m.items.contains_key(id) {
        Some(ErrorV::NotFound)
    } else {
        let i = m.items[id];
        if i.fenced {
            Some(ErrorV::StaleLease)
        } else if i.state.terminal() {
            Some(ErrorV::Terminal)
        } else if i.superseded {
            Some(ErrorV::Superseded)
        } else if !(i.state is Leased) {
            Some(ErrorV::Invalid("item is not leased"@))
        } else {
            None
        }
    }
}

/// The first fault among some items, if there is one.
pub open spec fn leases_checked(m: Model, ids: Seq<ItemId>) -> Result<(), ErrorV>
    decreases ids.len(),
{
    if ids.len() == 0 {
        Ok(())
    } else {
        match lease_fault(m, ids[0]) {
            Some(e) => Err(e),
            None => leases_checked(m, ids.drop_first()),
        }
    }
}

/// A claim that its worker presents.
#[derive(Debug)]
pub struct ClaimRef {
    pub item_id: ItemId,
    pub lease_token: String,
    pub item_version: u64,
}

/// Why a presented claim cannot be committed, if so: the lease must be live, under the presented token
/// and not past its time, and the item at the version that the worker saw.
pub open spec fn claim_fault(m: Model, r: ClaimRef, now: UtcTimestamp) -> Option<ErrorV> {
    match lease_fault(m, r.item_id) {
        Some(e) => Some(e),
        None => {
            let i = m.items[r.item_id];
            if i.lease_token != Some(r.lease_token@) {
                Some(ErrorV::StaleLease)
            } else if i.lease_expires_at is Some && ts_lt(i.lease_expires_at->Some_0, now) {
                Some(ErrorV::StaleLease)
            } else if i.item_version != r.item_version {
                Some(ErrorV::Conflict)
            } else {
                None
            }
        },
    }
}

pub open spec fn claims_checked(m: Model, refs: Seq<ClaimRef>, now: UtcTimestamp) -> Result<
    (),
    ErrorV,
>
    decreases refs.len(),
{
    if refs.len() == 0 {
        Ok(())
    } else {
        match claim_fault(m, refs[0], now) {
            Some(e) => Err(e),
            None => claims_checked(m, refs.drop_first(), now),
        }
    }
}

/// Whether an item's values may be changed, at a version if one is named.
pub open spec fn update_checked(m: Model, id: ItemId, version: Option<u64>) -> Result<(), ErrorV> {
    if !m.items.contains_key(id) {
        Err(ErrorV::NotFound)
    } else {
        let i = m.items[id];
        if i.fenced {
            Err(ErrorV::StaleLease)
        } else if i.state.terminal() {
            Err(ErrorV::Terminal)
        } else if i.superseded {
            Err(ErrorV::Superseded)
        } else if version is Some && i.item_version != version->Some_0 {
            Err(ErrorV::Conflict)
        } else {
            Ok(())
        }
    }
}

/// How an item of a batch update is named.
pub enum BatchUpdateItemRef {
    ItemId(ItemId),
    ClientItemKey(String),
    Both { item_id: ItemId, client_item_key: String },
}

/// The items that the names stand for.
pub open spec fn referred(m: Model, refs: Seq<BatchUpdateItemRef>) -> Set<ItemId>
    decreases refs.len(),
{
    if refs.len() == 0 {
        Set::empty()
    } else {
        let before = referred(m, refs.drop_last());
        match refs.last() {
            BatchUpdateItemRef::ItemId(id) => before.insert(id),
            BatchUpdateItemRef::ClientItemKey(k) => match item_for_key(m, k@) {
                Some(id) => before.insert(id),
                None => before,
            },
            BatchUpdateItemRef::Both { item_id, client_item_key } => match item_for_key(
                m,
                client_item_key@,
            ) {
                Some(id) => before.insert(item_id).insert(id),
                None => before.insert(item_id),
            },
        }
    }
}

/// An item as a batch update sees it.
#[derive(Debug)]
pub struct BatchUpdateSnapshotItem {
    pub item_id: ItemId,
    pub client_item_key: String,
    pub state: ItemState,
    pub item_version: u64,
    pub fenced: bool,
    pub superseded: bool,
}

pub ghost struct BatchSnapshotV {
    pub item_id: ItemId,
    pub client_item_key: Seq<char>,
    pub state: ItemState,
    pub item_version: u64,
    pub fenced: bool,
    pub superseded: bool,
}

impl BatchUpdateSnapshotItem {
    pub open spec fn view(&self) -> BatchSnapshotV {
        BatchSnapshotV {
            item_id: self.item_id,
            client_item_key: self.client_item_key@,
            state: self.state,
            item_version: self.item_version,
            fenced: self.fenced,
            superseded: self.superseded,
        }
    }
}

pub open spec fn batch_snapshots_v(v: Seq<BatchUpdateSnapshotItem>) -> Seq<BatchSnapshotV> {
    v.map_values(|x: BatchUpdateSnapshotItem| x@)
}

/// What a batch update sees of the items under some identifiers.
pub open spec fn batch_views(items: Map<ItemId, Item>, ids: Seq<ItemId>) -> Seq<BatchSnapshotV>
    decreases ids.len(),
{
    if ids.len() == 0 {
        Seq::empty()
    } else {
        let before = batch_views(items, ids.drop_last());
        let id = ids.last();
        if items.contains_key(id) {
            before.push(
                BatchSnapshotV {
                    item_id: id,
                    client_item_key: client_key(items[id]),
                    state: items[id].state,
                    item_version: items[id].item_version,
                    fenced: items[id].fenced,
                    superseded: items[id].superseded,
                },
            )
        } else {
            before
        }
    }
}

/// What the items under some keys show, each where it is live.
pub open spec fn live_under(m: Model) -> spec_fn(Seq<char>) -> Option<LiveItemV> {
    |k: Seq<char>|
        match item_for_key(m, k) {
            Some(id) => if m.items.contains_key(id) {
                as_live(m.items[id])
            } else {
                None
            },
            None => None,
        }
}

pub open spec fn opt_live(v: Seq<Option<LiveItemView>>) -> Seq<Option<LiveItemV>> {
    v.map_values(
        |x: Option<LiveItemView>|
            match x {
                Some(l) => Some(l@),
                None => None,
            },
    )
}

impl ProjectionData {
    /// The identifiers of all items, in order.
    pub fn all_ids(&self) -> (r: Vec<ItemId>)
        ensures
            r@ == listing_of::<u64>(self@.items.dom()),
            ascending::<u64>(r@),
            r@.to_set() == self@.items.dom(),
    {
        let keys = fx_keys(&self.items);
        let mut all: OrdSet<u64> = OrdSet::new();
        let mut i: usize = 0;
        assert(keys@.take(0).to_set() =~= Set::<u64>::empty());
        while i < keys.len()
            invariant
                i <= keys@.len(),
                all@ == keys@.take(i as int).to_set(),
            decreases keys@.len() - i,
        {
            all.insert(keys[i]);
            proof {
                let t = keys@.take(i as int + 1);
                assert(t =~= keys@.take(i as int).push(keys@[i as int]));
                assert forall|x: u64| t.to_set().contains(x) <==> keys@.take(
                    i as int,
                ).to_set().insert(keys@[i as int]).contains(x) by {
                    if keys@.take(i as int).contains(x) {
                        let j = choose|j: int|
                            0 <= j < keys@.take(i as int).len() && keys@.take(i as int)[j] == x;
                        assert(t[j] == x);
                    }
                    if x == keys@[i as int] {
                        assert(t[i as int] == x);
                    }
                    if t.contains(x) {
                        let j = choose|j: int| 0 <= j < t.len() && t[j] == x;
                        if j < i {
                            assert(keys@.take(i as int)[j] == x);
                        }
                    }
                }
                assert(t.to_set() =~= keys@.take(i as int).to_set().insert(keys@[i as int]));
            }
            i = i + 1;
        }
        assert(keys@.take(i as int) =~= keys@);
        assert(self@.items.dom() =~= self.items@.dom());
        let n = all.len();
        let mut out: Vec<ItemId> = Vec::new();
        let mut k: usize = 0;
        while k < n
            invariant
                k <= n,
                n == all.listing().len(),
                out@ == all.listing().take(k as int),
            decreases n - k,
        {
            out.push(*all.at(k));
            assert(all.listing().take(k as int + 1) =~= all.listing().take(k as int).push(
                all.listing()[k as int],
            ));
            k = k + 1;
        }
        assert(all.listing().take(k as int) =~= all.listing());
        assert(out@.to_set() =~= all@);
        out
    }

    pub fn is_paused(&self) -> (r: bool)
        ensures
            r == self@.paused,
    {
        self.paused
    }

    pub fn is_intake_blocked(&self) -> (r: bool)
        ensures
            r == (self@.paused && self@.pause_drain_intake),
    {
        self.paused && self.pause_drain_intake
    }

    /// The items to claim next.
    pub fn eligible_candidates(&self, now: UtcTimestamp, max: usize) -> (r: Vec<ItemId>)
        ensures
            r@ == candidates(self@, now, max as nat),
    {
        if self.paused {
            return Vec::new();
        }
        let bound = match self.ordering_mode {
            OrderingMode::BoundedRelaxed => self.max_rank_error,
            OrderingMode::Strict => 0,
        };
        if bound == 0 {
            return self.eligible.strict_candidates(now, max);
        }
        self.eligible.relaxed_candidates(now, max, bound)
    }

    /// The items to claim after one that was selected before.
    pub fn eligible_candidates_after(
        &self,
        now: UtcTimestamp,
        after: Option<ItemId>,
        max: usize,
    ) -> (r: Vec<ItemId>)
        ensures
            r@ == candidates_past(self@, now, after, max as nat),
    {
        if self.paused || max == 0 {
            return Vec::new();
        }
        let bound = match self.ordering_mode {
            OrderingMode::BoundedRelaxed => self.max_rank_error,
            OrderingMode::Strict => 0,
        };
        if bound != 0 {
            return self.eligible_candidates(now, max);
        }
        match after {
            None => self.eligible_candidates(now, max),
            Some(id) => match self.record(id) {
                None => self.eligible_candidates(now, max),
                Some(rec) => self.eligible.strict_candidates_after(
                    now,
                    rec,
                    &self.priority_model,
                    max,
                ),
            },
        }
    }

    pub fn select_eligible(&self, now: UtcTimestamp, limit: usize) -> (r: Vec<ItemId>)
        ensures
            r@ == candidates(self@, now, limit as nat),
    {
        self.eligible_candidates(now, limit)
    }

    fn peek_all(&self, ids: &Vec<ItemId>) -> (r: Vec<ItemView>)
        ensures
            item_views_v(r@) == picked(self@.items, ids@, peeked()),
    {
        let mut out: Vec<ItemView> = Vec::new();
        let mut i: usize = 0;
        assert(ids@.take(0) =~= Seq::<ItemId>::empty());
        assert(item_views_v(out@) =~= Seq::<ItemViewV>::empty());
        while i < ids.len()
            invariant
                i <= ids@.len(),
                item_views_v(out@) == picked(self@.items, ids@.take(i as int), peeked()),
            decreases ids@.len() - i,
        {
            proof {
                assert(ids@.take(i as int + 1).drop_last() =~= ids@.take(i as int));
                assert(ids@.take(i as int + 1).last() == ids@[i as int]);
            }
            match self.record(ids[i]) {
                Some(rec) => match rec.peek_view() {
                    Some(v) => {
                        let ghost before = out@;
                        out.push(v);
                        assert(item_views_v(out@) =~= item_views_v(before).push(v@));
                    },
                    None => {},
                },
                None => {},
            }
            i = i + 1;
        }
        assert(ids@.take(i as int) =~= ids@);
        out
    }

    /// The first pending items in the order of the queue, nothing taken.
    pub fn peek(&self, limit: usize) -> (r: Vec<ItemView>)
        ensures
            item_views_v(r@) == picked(
                self@.items,
                items_of(first_of(listing_of::<EligKey>(self@.eligible), limit as nat)),
                peeked(),
            ),
    {
        let ids = self.eligible.ordered_items(limit);
        self.peek_all(&ids)
    }

    /// A page of the pending items after one of them.
    pub fn peek_page(&self, after: Option<ItemId>, limit: usize) -> (r: Vec<ItemView>)
        ensures
            item_views_v(r@) == page_peeked(self@, after, limit as nat),
    {
        let from = match after {
            Some(id) => self.record(id),
            None => None,
        };
        let ids = self.eligible.ordered_items_after(from, &self.priority_model, limit);
        self.peek_all(&ids)
    }

    /// The number of items that are found by a key of their client.
    pub fn explicit_keys(&self) -> (r: usize)
        ensures
            r == self@.by_key.dom().len(),
    {
        self.by_key.len()
    }

    /// Items per state.
    pub fn metrics(&self) -> (r: QueueMetrics)
        ensures
            r == self@.metrics,
    {
        self.metrics
    }

    /// The claimed items among some, as their worker gets them.
    pub fn render_claimed(&self, ids: &Vec<ItemId>) -> (r: Vec<ClaimedItem>)
        ensures
            claimed_items_v(r@) == picked(self@.items, ids@, as_claimed()),
    {
        let mut out: Vec<ClaimedItem> = Vec::new();
        let mut i: usize = 0;
        assert(ids@.take(0) =~= Seq::<ItemId>::empty());
        assert(claimed_items_v(out@) =~= Seq::<ClaimedItemV>::empty());
        while i < ids.len()
            invariant
                i <= ids@.len(),
                claimed_items_v(out@) == picked(self@.items, ids@.take(i as int), as_claimed()),
            decreases ids@.len() - i,
        {
            proof {
                assert(ids@.take(i as int + 1).drop_last() =~= ids@.take(i as int));
                assert(ids@.take(i as int + 1).last() == ids@[i as int]);
            }
            match self.record(ids[i]) {
                Some(rec) => match rec.to_claimed() {
                    Some(v) => {
                        let ghost before = out@;
                        out.push(v);
                        assert(claimed_items_v(out@) =~= claimed_items_v(before).push(v@));
                    },
                    None => {},
                },
                None => {},
            }
            i = i + 1;
        }
        assert(ids@.take(i as int) =~= ids@);
        out
    }

    fn item_id_for_client_key(&self, client_item_key: &str) -> (r: Option<ItemId>)
        ensures
            r == item_for_key(self@, client_item_key@),
    {
        match self.by_key.get(client_item_key) {
            Some(id) => return Some(id),
            None => {},
        }
        match parse_unsigned(client_item_key, u64::MAX) {
            None => None,
            Some(id) => match self.record(id) {
                Some(rec) => if rec.superseded {
                    None
                } else {
                    Some(id)
                },
                None => None,
            },
        }
    }

    /// The live items under some keys, in the order of the keys.
    pub fn live_items_by_key(&self, keys: &Vec<String>) -> (r: Vec<Option<LiveItemView>>)
        ensures
            opt_live(r@) == texts(keys@).map_values(live_under(self@)),
    {
        let ghost all = texts(keys@).map_values(live_under(self@));
        let mut out: Vec<Option<LiveItemView>> = Vec::new();
        let mut i: usize = 0;
        assert(opt_live(out@) =~= all.take(0));
        while i < keys.len()
            invariant
                i <= keys@.len(),
                all == texts(keys@).map_values(live_under(self@)),
                opt_live(out@) == all.take(i as int),
            decreases keys@.len() - i,
        {
            let ghost before = out@;
            let found = match self.item_id_for_client_key(keys[i].as_str()) {
                Some(id) => match self.record(id) {
                    Some(rec) => rec.to_live(),
                    None => None,
                },
                None => None,
            };
            out.push(found);
            proof {
                assert(texts(keys@)[i as int] == keys@[i as int]@);
                assert(opt_live(out@) =~= opt_live(before).push(all[i as int]));
                assert(all.take(i as int + 1) =~= all.take(i as int).push(all[i as int]));
            }
            i = i + 1;
        }
        assert(all.take(i as int) =~= all);
        out
    }

    /// The item that a client's key stands for.
    pub fn lookup_by_key(&self, client_item_key: &str) -> (r: Option<ItemId>)
        ensures
            r == item_for_key(self@, client_item_key@),
    {
        self.item_id_for_client_key(client_item_key)
    }

    /// The items that a batch update names, in the order of their identifiers.
    pub fn batch_update_snapshot(&self, refs: &Vec<BatchUpdateItemRef>) -> (r: Vec<
        BatchUpdateSnapshotItem,
    >)
        ensures
            batch_snapshots_v(r@) == batch_views(
                self@.items,
                listing_of::<u64>(referred(self@, refs@)),
            ),
    {
        let mut ids: OrdSet<u64> = OrdSet::new();
        let mut i: usize = 0;
        assert(refs@.take(0) =~= Seq::<BatchUpdateItemRef>::empty());
        while i < refs.len()
            invariant
                i <= refs@.len(),
                ids@ == referred(self@, refs@.take(i as int)),
            decreases refs@.len() - i,
        {
            proof {
                assert(refs@.take(i as int + 1).drop_last() =~= refs@.take(i as int));
                assert(refs@.take(i as int + 1).last() == refs@[i as int]);
            }
            match &refs[i] {
                BatchUpdateItemRef::ItemId(id) => {
                    ids.insert(*id);
                },
                BatchUpdateItemRef::ClientItemKey(k) => {
                    match self.item_id_for_client_key(k.as_str()) {
                        Some(id) => {
                            ids.insert(id);
                        },
                        None => {},
                    }
                },
                BatchUpdateItemRef::Both { item_id, client_item_key } => {
                    ids.insert(*item_id);
                    match self.item_id_for_client_key(client_item_key.as_str()) {
                        Some(id) => {
                            ids.insert(id);
                        },
                        None => {},
                    }
                },
            }
            i = i + 1;
        }
        assert(refs@.take(i as int) =~= refs@);
        let n = ids.len();
        let ghost all = ids.listing();
        let mut out: Vec<BatchUpdateSnapshotItem> = Vec::new();
        let mut k: usize = 0;
        assert(all.take(0) =~= Seq::<ItemId>::empty());
        assert(batch_snapshots_v(out@) =~= Seq::<BatchSnapshotV>::empty());
        while k < n
            invariant
                k <= n,
                n == all.len(),
                all == ids.listing(),
                batch_snapshots_v(out@) == batch_views(self@.items, all.take(k as int)),
            decreases n - k,
        {
            proof {
                assert(all.take(k as int + 1).drop_last() =~= all.take(k as int));
                assert(all.take(k as int + 1).last() == all[k as int]);
            }
            let id = *ids.at(k);
            match self.record(id) {
                Some(rec) => {
                    let ghost before = out@;
                    let v = BatchUpdateSnapshotItem {
                        item_id: id,
                        client_item_key: rec.client_item_key(),
                        state: rec.state,
                        item_version: rec.item_version,
                        fenced: rec.fenced,
                        superseded: rec.superseded,
                    };
                    out.push(v);
                    assert(batch_snapshots_v(out@) =~= batch_snapshots_v(before).push(v@));
                },
                None => {},
            }
            k = k + 1;
        }
        assert(all.take(k as int) =~= all);
        out
    }

    pub fn item_state(&self, id: ItemId) -> (r: Option<ItemState>)
        ensures
            r == (if self@.items.contains_key(id) {
                Some(self@.items[id].state)
            } else {
                None
            }),
    {
        match self.record(id) {
            Some(rec) => Some(rec.state),
            None => None,
        }
    }

    pub fn item_version(&self, id: ItemId) -> (r: Option<u64>)
        ensures
            r == (if self@.items.contains_key(id) {
                Some(self@.items[id].item_version)
            } else {
                None
            }),
    {
        match self.record(id) {
            Some(rec) => Some(rec.item_version),
            None => None,
        }
    }

    /// Whether an item can be claimed by its identifier.
    pub fn classify_claim_by_item_id(&self, id: ItemId, now: UtcTimestamp) -> (r:
        ClaimByItemIdClass)
        ensures
            r == claim_class(self@, id, now),
    {
        let rec = match self.record(id) {
            None => return ClaimByItemIdClass::NotFound,
            Some(rec) => rec,
        };
        if rec.superseded {
            return ClaimByItemIdClass::NotFound;
        }
        match rec.state {
            ItemState::Complete => ClaimByItemIdClass::Terminal,
            ItemState::Failed => ClaimByItemIdClass::Terminal,
            ItemState::Leased => ClaimByItemIdClass::Leased,
            ItemState::Pending => {
                let early = match rec.not_before {
                    Some(nb) => now.before(&nb),
                    None => false,
                };
                if self.paused || early || gate_keys_blocked(&self.blocked_gates, &rec.gate_keys) {
                    ClaimByItemIdClass::NotEligible
                } else {
                    ClaimByItemIdClass::Claimable
                }
            },
        }
    }

    fn lease_error(&self, id: ItemId) -> (r: Option<EngineError>)
        ensures
            (match r {
                Some(e) => Some(e@),
                None => None,
            }) == lease_fault(self@, id),
    {
        let rec = match self.record(id) {
            None => return Some(EngineError::NotFound),
            Some(rec) => rec,
        };
        if rec.fenced {
            return Some(EngineError::StaleLease);
        }
        if rec.state.is_terminal() {
            return Some(EngineError::Terminal);
        }
        if rec.superseded {
            return Some(EngineError::Superseded);
        }
        match rec.state {
            ItemState::Leased => None,
            _ => Some(EngineError::Invalid("item is not leased")),
        }
    }

    /// Every item is there, leased, and neither fenced nor superseded.
    fn validate_leased(&self, ids: &Vec<ItemId>) -> (r: EngineResult<()>)
        ensures
            outcome(r) == leases_checked(self@, ids@),
    {
        let mut i: usize = 0;
        assert(ids@.skip(0) =~= ids@);
        while i < ids.len()
            invariant
                i <= ids@.len(),
                leases_checked(self@, ids@) == leases_checked(self@, ids@.skip(i as int)),
            decreases ids@.len() - i,
        {
            proof {
                assert(ids@.skip(i as int)[0] == ids@[i as int]);
                assert(ids@.skip(i as int).drop_first() =~= ids@.skip(i as int + 1));
            }
            match self.lease_error(ids[i]) {
                Some(e) => return Err(e),
                None => {},
            }
            i = i + 1;
        }
        Ok(())
    }

    /// Whether outcomes may be given to some items: all leases must stand. Nothing is changed.
    pub fn finalize_validate(&self, outcomes: &Vec<FinalizeOutcome>) -> (r: EngineResult<()>)
        ensures
            outcome(r) == leases_checked(
                self@,
                outcomes@.map_values(|o: FinalizeOutcome| o.item_id),
            ),
    {
        let ghost all = outcomes@.map_values(|o: FinalizeOutcome| o.item_id);
        let mut ids: Vec<ItemId> = Vec::new();
        let mut i: usize = 0;
        while i < outcomes.len()
            invariant
                i <= outcomes@.len(),
                all == outcomes@.map_values(|o: FinalizeOutcome| o.item_id),
                ids@ == all.take(i as int),
            decreases outcomes@.len() - i,
        {
            ids.push(outcomes[i].item_id);
            assert(all.take(i as int + 1) =~= all.take(i as int).push(all[i as int]));
            i = i + 1;
        }
        assert(all.take(i as int) =~= all);
        self.validate_leased(&ids)
    }

    /// Whether leases may be renewed.
    pub fn renew_validate(&self, ids: &Vec<ItemId>) -> (r: EngineResult<()>)
        ensures
            outcome(r) == leases_checked(self@, ids@),
    {
        self.validate_leased(ids)
    }

    /// Whether leases may be handed on.
    pub fn reassign_validate(&self, ids: &Vec<ItemId>) -> (r: EngineResult<()>)
        ensures
            outcome(r) == leases_checked(self@, ids@),
    {
        self.validate_leased(ids)
    }

    /// Whether presented claims may be committed.
    pub fn commit_validate(&self, refs: &Vec<ClaimRef>, now: UtcTimestamp) -> (r: EngineResult<()>)
        ensures
            outcome(r) == claims_checked(self@, refs@, now),
    {
        let mut i: usize = 0;
        assert(refs@.skip(0) =~= refs@);
        while i < refs.len()
            invariant
                i <= refs@.len(),
                claims_checked(self@, refs@, now) == claims_checked(
                    self@,
                    refs@.skip(i as int),
                    now,
                ),
            decreases refs@.len() - i,
        {
            proof {
                assert(refs@.skip(i as int)[0] == refs@[i as int]);
                assert(refs@.skip(i as int).drop_first() =~= refs@.skip(i as int + 1));
            }
            match self.lease_error(refs[i].item_id) {
                Some(e) => return Err(e),
                None => {},
            }
            match self.record(refs[i].item_id) {
                None => return Err(EngineError::NotFound),
                Some(rec) => {
                    let held_by_caller = match &rec.lease_token {
                        Some(t) => same_text(t.as_str(), refs[i].lease_token.as_str()),
                        None => false,
                    };
                    if !held_by_caller {
                        return Err(EngineError::StaleLease);
                    }
                    let expired = match rec.lease_expires_at {
                        Some(e) => e.before(&now),
                        None => false,
                    };
                    if expired {
                        return Err(EngineError::StaleLease);
                    }
                    if rec.item_version != refs[i].item_version {
                        return Err(EngineError::Conflict);
                    }
                },
            }
            i = i + 1;
        }
        Ok(())
    }

    /// Whether an item's values may be changed.
    pub fn update_fields_validate(&self, item_id: ItemId, expected_item_version: Option<u64>) -> (r:
        EngineResult<()>)
        ensures
            outcome(r) == update_checked(self@, item_id, expected_item_version),
    {
        let rec = match self.record(item_id) {
            None => return Err(EngineError::NotFound),
            Some(rec) => rec,
        };
        if rec.fenced {
            return Err(EngineError::StaleLease);
        }
        if rec.state.is_terminal() {
            return Err(EngineError::Terminal);
        }
        if rec.superseded {
            return Err(EngineError::Superseded);
        }
        match expected_item_version {
            Some(v) => if rec.item_version != v {
                Err(EngineError::Conflict)
            } else {
                Ok(())
            },
            None => Ok(()),
        }
    }

    /// The side record under a key.
    pub fn side_record(&self, key: &Vec<u8>) -> (r: Option<&Bytes>)
        ensures
            (match r {
                Some(b) => Some(bytes_of(*b)),
                None => None,
            }) == (if self@.side_records.contains_key(key@) {
                Some(self@.side_records[key@])
            } else {
                None
            }),
    {
        self.side_records.get(key)
    }

    /// The fence of an instance.
    pub fn instance_fence(&self, key: &Vec<u8>) -> (r: Option<u64>)
        ensures
            r == (if self@.instance_fences.contains_key(key@) {
                Some(self@.instance_fences[key@])
            } else {
                None
            }),
    {
        match self.instance_fences.get(key) {
            Some(v) => Some(*v),
            None => None,
        }
    }
}

/// Leases pass the check exactly where each is there, leased, and neither fenced nor superseded.
pub proof fn law_checked_leases_stand(m: Model, ids: Seq<ItemId>)
    ensures
        leases_checked(m, ids) is Ok <==> forall|i: int|
            0 <= i < ids.len() ==> lease_fault(m, #[trigger] ids[i]) is None,
    decreases ids.len(),
{
    if ids.len() > 0 {
        law_checked_leases_stand(m, ids.drop_first());
        if leases_checked(m, ids) is Ok {
            assert forall|i: int| 0 <= i < ids.len() implies lease_fault(
                m,
                #[trigger] ids[i],
            ) is None by {
                if i > 0 {
                    assert(ids.drop_first()[i - 1] == ids[i]);
                }
            }
        }
        if forall|i: int| 0 <= i < ids.len() ==> lease_fault(m, #[trigger] ids[i]) is None {
            assert forall|i: int| 0 <= i < ids.drop_first().len() implies lease_fault(
                m,
                #[trigger] ids.drop_first()[i],
            ) is None by {
                assert(ids[i + 1] == ids.drop_first()[i]);
            }
            assert(lease_fault(m, ids[0]) is None);
        }
    }
}

/// Claims that pass the check are on live leases under the presented tokens, at the presented
/// versions.
pub proof fn law_committed_claims_are_authorised(
    m: Model,
    refs: Seq<ClaimRef>,
    now: UtcTimestamp,
    k: int,
)
    requires
        claims_checked(m, refs, now) is Ok,
        0 <= k < refs.len(),
    ensures
        m.items.contains_key(refs[k].item_id),
        m.items[refs[k].item_id].state is Leased,
        m.items[refs[k].item_id].lease_token == Some(refs[k].lease_token@),
        m.items[refs[k].item_id].item_version == refs[k].item_version,
        !m.items[refs[k].item_id].fenced,
    decreases refs.len(),
{
    if k > 0 {
        law_committed_claims_are_authorised(m, refs.drop_first(), now, k - 1);
        assert(refs.drop_first()[k - 1] == refs[k]);
    }
}

/// While a queue is paused nothing is offered, and no item can be claimed by its identifier.
pub proof fn law_paused_queue_offers_nothing(m: Model, now: UtcTimestamp, max: nat, id: ItemId)
    requires
        m.paused,
    ensures
        candidates(m, now, max) == Seq::<ItemId>::empty(),
        claim_class(m, id, now) != ClaimByItemIdClass::Claimable,
{
}

} // verus!
