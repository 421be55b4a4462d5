//! The vocabulary of queues: identifiers, timestamps, lifecycle, commands and errors.

use crate::json::{Json, JsonV};
use crate::order::{OrdMap, OrderKey, Standing, bytes_standing, text_lt};
use crate::shared::{bytes_of, bytes_share, bytes_slice, share};
use crate::text::{same_text, texts};
use bytes::Bytes;
use std::sync::Arc;
use vstd::prelude::*;

verus! {

/// An item's identifier. Its text is its decimal numeral.
pub type ItemId = u64;

/// A point in time, in seconds and nanoseconds since the epoch.
#[derive(Clone, Copy, PartialEq, Eq, Structural, Debug)]
pub struct UtcTimestamp {
    pub seconds: i64,
    pub nanoseconds: u32,
}

pub open spec fn ts_lt(a: UtcTimestamp, b: UtcTimestamp) -> bool {
    a.seconds < b.seconds || (a.seconds == b.seconds && a.nanoseconds < b.nanoseconds)
}

pub open spec fn ts_le(a: UtcTimestamp, b: UtcTimestamp) -> bool {
    ts_lt(a, b) || a == b
}

pub open spec fn ts_max(a: UtcTimestamp, b: UtcTimestamp) -> UtcTimestamp {
    if ts_lt(a, b) {
        b
    } else {
        a
    }
}

/// The start of the epoch.
pub open spec fn epoch_start() -> UtcTimestamp {
    UtcTimestamp { seconds: 0, nanoseconds: 0 }
}

impl UtcTimestamp {
    /// A timestamp, if the nanoseconds are less than a second.
    pub fn new(seconds: i64, nanoseconds: u32) -> (r: Option<UtcTimestamp>)
        ensures
            r == (if nanoseconds < 1_000_000_000 {
                Some(UtcTimestamp { seconds, nanoseconds })
            } else {
                None
            }),
    {
        if nanoseconds < 1_000_000_000 {
            Some(UtcTimestamp { seconds, nanoseconds })
        } else {
            None
        }
    }

    pub fn before(&self, other: &UtcTimestamp) -> (r: bool)
        ensures
            r == ts_lt(*self, *other),
    {
        self.seconds < other.seconds || (self.seconds == other.seconds && self.nanoseconds
            < other.nanoseconds)
    }

    pub fn at_most(&self, other: &UtcTimestamp) -> (r: bool)
        ensures
            r == ts_le(*self, *other),
    {
        !other.before(self)
    }

    pub fn later_of(self, other: UtcTimestamp) -> (r: UtcTimestamp)
        ensures
            r == ts_max(self, other),
    {
        if self.before(&other) {
            other
        } else {
            self
        }
    }
}

impl OrderKey for UtcTimestamp {
    type V = UtcTimestamp;

    open spec fn kv(&self) -> UtcTimestamp {
        *self
    }

    open spec fn kless(a: UtcTimestamp, b: UtcTimestamp) -> bool {
        ts_lt(a, b)
    }

    proof fn lt_irreflexive(a: UtcTimestamp) {
    }

    proof fn lt_transitive(a: UtcTimestamp, b: UtcTimestamp, c: UtcTimestamp) {
    }

    proof fn lt_total(a: UtcTimestamp, b: UtcTimestamp) {
    }

    fn standing(&self, other: &UtcTimestamp) -> (r: Standing) {
        if self.before(other) {
            Standing::Below
        } else if other.before(self) {
            Standing::Above
        } else {
            Standing::Same
        }
    }
}

/// Where an item stands in its life.
#[derive(Clone, Copy, PartialEq, Eq, Structural, Debug)]
pub enum ItemState {
    Pending,
    Leased,
    Complete,
    Failed,
}

impl ItemState {
    pub open spec fn terminal(self) -> bool {
        self is Complete || self is Failed
    }

    pub fn is_terminal(self) -> (r: bool)
        ensures
            r == self.terminal(),
    {
        match self {
            ItemState::Complete => true,
            ItemState::Failed => true,
            _ => false,
        }
    }
}

/// What happens to an item.
#[derive(Clone, Copy, PartialEq, Eq, Structural, Debug)]
pub enum ItemEvent {
    Claim,
    FinalizeComplete,
    FinalizeFail,
    FinalizeRetry,
    FinalizeRelease,
    FinalizeRearm,
    LeaseExpired,
}

/// The lifecycle: a pending item is claimed; a leased one completes, fails or goes back to pending.
pub open spec fn next_state(state: ItemState, ev: ItemEvent) -> Option<ItemState> {
    match (state, ev) {
        (ItemState::Pending, ItemEvent::Claim) => Some(ItemState::Leased),
        (ItemState::Leased, ItemEvent::FinalizeComplete) => Some(ItemState::Complete),
        (ItemState::Leased, ItemEvent::FinalizeFail) => Some(ItemState::Failed),
        (ItemState::Leased, ItemEvent::FinalizeRetry) => Some(ItemState::Pending),
        (ItemState::Leased, ItemEvent::FinalizeRelease) => Some(ItemState::Pending),
        (ItemState::Leased, ItemEvent::FinalizeRearm) => Some(ItemState::Pending),
        (ItemState::Leased, ItemEvent::LeaseExpired) => Some(ItemState::Pending),
        _ => None,
    }
}

pub fn apply_transition(state: ItemState, ev: ItemEvent) -> (r: Option<ItemState>)
    ensures
        r == next_state(state, ev),
{
    match (state, ev) {
        (ItemState::Pending, ItemEvent::Claim) => Some(ItemState::Leased),
        (ItemState::Leased, ItemEvent::FinalizeComplete) => Some(ItemState::Complete),
        (ItemState::Leased, ItemEvent::FinalizeFail) => Some(ItemState::Failed),
        (ItemState::Leased, ItemEvent::FinalizeRetry) => Some(ItemState::Pending),
        (ItemState::Leased, ItemEvent::FinalizeRelease) => Some(ItemState::Pending),
        (ItemState::Leased, ItemEvent::FinalizeRearm) => Some(ItemState::Pending),
        (ItemState::Leased, ItemEvent::LeaseExpired) => Some(ItemState::Pending),
        _ => None,
    }
}

/// Whether a retry has used up its deliveries.
pub fn is_retry_exhausted(attempts: u32, max_attempts: u32) -> (r: bool)
    ensures
        r <==> attempts >= max_attempts,
{
    attempts >= max_attempts
}

/// Why an operation was refused.
#[derive(Debug, PartialEq, Eq)]
pub enum EngineError {
    NotFound,
    StaleLease,
    Terminal,
    Superseded,
    Conflict,
    EpochFenced,
    RequestIdConflict,
    BatchTooLarge,
    Unavailable,
    Invalid(&'static str),
    Storage(String),
}

pub ghost enum ErrorV {
    NotFound,
    StaleLease,
    Terminal,
    Superseded,
    Conflict,
    EpochFenced,
    RequestIdConflict,
    BatchTooLarge,
    Unavailable,
    Invalid(Seq<char>),
    Storage(Seq<char>),
}

impl EngineError {
    pub open spec fn view(&self) -> ErrorV {
        match self {
            EngineError::NotFound => ErrorV::NotFound,
            EngineError::StaleLease => ErrorV::StaleLease,
            EngineError::Terminal => ErrorV::Terminal,
            EngineError::Superseded => ErrorV::Superseded,
            EngineError::Conflict => ErrorV::Conflict,
            EngineError::EpochFenced => ErrorV::EpochFenced,
            EngineError::RequestIdConflict => ErrorV::RequestIdConflict,
            EngineError::BatchTooLarge => ErrorV::BatchTooLarge,
            EngineError::Unavailable => ErrorV::Unavailable,
            EngineError::Invalid(t) => ErrorV::Invalid(t@),
            EngineError::Storage(t) => ErrorV::Storage(t@),
        }
    }
}

pub type EngineResult<T> = Result<T, EngineError>;

/// An outcome with its error by what it says.
pub open spec fn outcome<T>(r: Result<T, EngineError>) -> Result<T, ErrorV> {
    match r {
        Ok(t) => Ok(t),
        Err(e) => Err(e@),
    }
}

/// A queue of a tenant.
#[derive(Debug, PartialEq, Eq)]
pub struct QueueKey {
    pub tenant_id: String,
    pub queue_id: String,
}

pub ghost struct QueueV {
    pub tenant_id: Seq<char>,
    pub queue_id: Seq<char>,
}

impl QueueKey {
    pub open spec fn view(&self) -> QueueV {
        QueueV { tenant_id: self.tenant_id@, queue_id: self.queue_id@ }
    }

    pub fn duplicate(&self) -> (r: QueueKey)
        ensures
            r == *self,
    {
        QueueKey { tenant_id: self.tenant_id.clone(), queue_id: self.queue_id.clone() }
    }

    pub fn same(&self, other: &QueueKey) -> (r: bool)
        ensures
            r <==> self@ == other@,
    {
        same_text(self.tenant_id.as_str(), other.tenant_id.as_str()) && same_text(
            self.queue_id.as_str(),
            other.queue_id.as_str(),
        )
    }
}

impl OrderKey for QueueKey {
    type V = QueueV;

    open spec fn kv(&self) -> QueueV {
        self@
    }

    /// Queues order by tenant, then by name.
    open spec fn kless(a: QueueV, b: QueueV) -> bool {
        text_lt(a.tenant_id, b.tenant_id) || (a.tenant_id == b.tenant_id && text_lt(
            a.queue_id,
            b.queue_id,
        ))
    }

    proof fn lt_irreflexive(a: QueueV) {
        String::lt_irreflexive(a.tenant_id);
        String::lt_irreflexive(a.queue_id);
    }

    proof fn lt_transitive(a: QueueV, b: QueueV, c: QueueV) {
        if text_lt(a.tenant_id, b.tenant_id) && text_lt(b.tenant_id, c.tenant_id) {
            String::lt_transitive(a.tenant_id, b.tenant_id, c.tenant_id);
        }
        if text_lt(a.queue_id, b.queue_id) && text_lt(b.queue_id, c.queue_id) {
            String::lt_transitive(a.queue_id, b.queue_id, c.queue_id);
        }
    }

    proof fn lt_total(a: QueueV, b: QueueV) {
        String::lt_total(a.tenant_id, b.tenant_id);
        String::lt_total(a.queue_id, b.queue_id);
    }

    fn standing(&self, other: &QueueKey) -> (r: Standing) {
        proof {
            String::lt_irreflexive(self.tenant_id@);
            String::lt_irreflexive(self.queue_id@);
            String::lt_total(self.tenant_id@, other.tenant_id@);
            if text_lt(self.tenant_id@, other.tenant_id@) && text_lt(
                other.tenant_id@,
                self.tenant_id@,
            ) {
                String::lt_transitive(self.tenant_id@, other.tenant_id@, self.tenant_id@);
            }
        }
        match self.tenant_id.standing(&other.tenant_id) {
            Standing::Same => self.queue_id.standing(&other.queue_id),
            s => s,
        }
    }
}

/// The place of a command in a queue's log.
#[derive(Debug, PartialEq, Eq)]
pub struct CommandPosition {
    pub queue: QueueKey,
    pub backend_epoch: u64,
    pub sequence: u64,
}

pub ghost struct PositionV {
    pub queue: QueueV,
    pub backend_epoch: u64,
    pub sequence: u64,
}

/// Positions order by epoch, then by sequence.
pub open spec fn position_precedes(a: PositionV, b: PositionV) -> bool {
    a.backend_epoch < b.backend_epoch || (a.backend_epoch == b.backend_epoch && a.sequence
        < b.sequence)
}

impl CommandPosition {
    pub open spec fn view(&self) -> PositionV {
        PositionV {
            queue: self.queue@,
            backend_epoch: self.backend_epoch,
            sequence: self.sequence,
        }
    }

    pub fn new(queue: QueueKey, backend_epoch: u64, sequence: u64) -> (r: CommandPosition)
        ensures
            r == (CommandPosition { queue, backend_epoch, sequence }),
    {
        CommandPosition { queue, backend_epoch, sequence }
    }

    pub fn precedes(&self, other: &CommandPosition) -> (r: bool)
        ensures
            r == position_precedes(self@, other@),
    {
        self.backend_epoch < other.backend_epoch || (self.backend_epoch == other.backend_epoch
            && self.sequence < other.sequence)
    }

    pub fn same(&self, other: &CommandPosition) -> (r: bool)
        ensures
            r <==> self@ == other@,
    {
        self.queue.same(&other.queue) && self.backend_epoch == other.backend_epoch && self.sequence
            == other.sequence
    }

    pub fn duplicate(&self) -> (r: CommandPosition)
        ensures
            r == *self,
    {
        CommandPosition {
            queue: self.queue.duplicate(),
            backend_epoch: self.backend_epoch,
            sequence: self.sequence,
        }
    }
}

pub open spec fn opt_position(p: Option<CommandPosition>) -> Option<PositionV> {
    match p {
        Some(x) => Some(x@),
        None => None,
    }
}

pub fn clone_opt_position(p: Option<&CommandPosition>) -> (r: Option<CommandPosition>)
    ensures
        match p {
            Some(x) => r == Some(*x),
            None => r is None,
        },
{
    match p {
        Some(x) => Some(x.duplicate()),
        None => None,
    }
}

/// The value by which a queue ranks an item.
#[derive(Debug, PartialEq, Eq)]
pub enum PriorityValue {
    Timestamp(UtcTimestamp),
    Int64(i64),
    Decimal(i128),
    Text(String),
}

pub ghost enum PriorityV {
    Timestamp(UtcTimestamp),
    Int64(i64),
    Decimal(i128),
    Text(Seq<char>),
}

impl PriorityValue {
    pub open spec fn view(&self) -> PriorityV {
        match self {
            PriorityValue::Timestamp(t) => PriorityV::Timestamp(*t),
            PriorityValue::Int64(v) => PriorityV::Int64(*v),
            PriorityValue::Decimal(v) => PriorityV::Decimal(*v),
            PriorityValue::Text(t) => PriorityV::Text(t@),
        }
    }

    pub fn duplicate(&self) -> (r: PriorityValue)
        ensures
            r == *self,
    {
        match self {
            PriorityValue::Timestamp(t) => PriorityValue::Timestamp(*t),
            PriorityValue::Int64(v) => PriorityValue::Int64(*v),
            PriorityValue::Decimal(v) => PriorityValue::Decimal(*v),
            PriorityValue::Text(t) => PriorityValue::Text(t.clone()),
        }
    }

    pub fn same(&self, other: &PriorityValue) -> (r: bool)
        ensures
            r <==> self@ == other@,
    {
        match (self, other) {
            (PriorityValue::Timestamp(a), PriorityValue::Timestamp(b)) => *a == *b,
            (PriorityValue::Int64(a), PriorityValue::Int64(b)) => *a == *b,
            (PriorityValue::Decimal(a), PriorityValue::Decimal(b)) => *a == *b,
            (PriorityValue::Text(a), PriorityValue::Text(b)) => same_text(a.as_str(), b.as_str()),
            _ => false,
        }
    }
}

pub open spec fn opt_priority(p: Option<PriorityValue>) -> Option<PriorityV> {
    match p {
        Some(x) => Some(x@),
        None => None,
    }
}

pub fn clone_opt_priority(p: &Option<PriorityValue>) -> (r: Option<PriorityValue>)
    ensures
        r == *p,
{
    match p {
        Some(x) => Some(x.duplicate()),
        None => None,
    }
}

pub fn same_opt_priority(a: &Option<PriorityValue>, b: &Option<PriorityValue>) -> (r: bool)
    ensures
        r <==> opt_priority(*a) == opt_priority(*b),
{
    match (a, b) {
        (None, None) => true,
        (Some(x), Some(y)) => x.same(y),
        _ => false,
    }
}

#[derive(Clone, Copy, PartialEq, Eq, Structural, Debug)]
pub enum PriorityModelKind {
    Timestamp,
    Int64,
    Decimal,
    Text,
}

#[derive(Clone, Copy, PartialEq, Eq, Structural, Debug)]
pub enum PriorityDirection {
    Ascending,
    Descending,
}

/// How a queue reads priorities.
#[derive(Clone, Copy, PartialEq, Eq, Structural, Debug)]
pub struct PriorityModel {
    pub kind: PriorityModelKind,
    pub direction: PriorityDirection,
}

#[derive(Clone, Copy, PartialEq, Eq, Structural, Debug)]
pub enum OrderingMode {
    Strict,
    BoundedRelaxed,
}

#[derive(Clone, Copy, PartialEq, Eq, Structural, Debug)]
pub enum RecurrenceMode {
    Oneshot,
    Recurring,
}

#[derive(Clone, Copy, PartialEq, Eq, Structural, Debug)]
pub struct RecurrencePolicy {
    pub mode: RecurrenceMode,
    pub until: Option<UtcTimestamp>,
}

#[derive(Clone, Copy, PartialEq, Eq, Structural, Debug)]
pub enum GateKeyPolicy {
    Disabled,
    Dynamic,
}

#[derive(Clone, Copy, PartialEq, Eq, Structural, Debug)]
pub struct EligibilityPolicy {
    pub gate_keys: GateKeyPolicy,
    pub max_gate_keys_per_item: Option<u64>,
    pub max_gates_per_request: Option<u64>,
}

/// Items per state, superseded ones left out.
#[derive(Clone, Copy, PartialEq, Eq, Structural, Debug)]
pub struct QueueMetrics {
    pub pending: u64,
    pub leased: u64,
    pub complete: u64,
    pub failed: u64,
    pub resident_terminal_count: u64,
}

impl QueueMetrics {
    pub open spec fn zero() -> QueueMetrics {
        QueueMetrics { pending: 0, leased: 0, complete: 0, failed: 0, resident_terminal_count: 0 }
    }

    pub fn none() -> (r: QueueMetrics)
        ensures
            r == QueueMetrics::zero(),
    {
        QueueMetrics { pending: 0, leased: 0, complete: 0, failed: 0, resident_terminal_count: 0 }
    }
}

/// Named byte values of an item.
pub type FieldMap = OrdMap<String, Bytes>;

/// Named JSON values of an item.
pub type Metadata = OrdMap<String, Json>;

/// Field values by their bytes.
pub open spec fn field_bytes(m: FieldMap) -> Map<Seq<char>, Seq<u8>> {
    m@.map_values(|b: Bytes| bytes_of(b))
}

/// Metadata by what the values hold.
pub open spec fn metadata_of(m: Metadata) -> Map<Seq<char>, JsonV> {
    m@.map_values(|j: Json| j@)
}

pub open spec fn opt_bytes(b: Option<Bytes>) -> Option<Seq<u8>> {
    match b {
        Some(x) => Some(bytes_of(x)),
        None => None,
    }
}

/// A typed entity document, with what the typed indexes of the queue make of it: the key under each
/// index that covers it, or why there is none.
pub struct Entity {
    pub document: Json,
    pub keys: Result<Vec<(String, Vec<u8>)>, String>,
    /// The index values that the document holds, or why they cannot be told.
    pub extracted: Result<IndexFields, String>,
}

/// Typed index values of an item, with the form they are stored in, if any, and the keys that the
/// typed indexes of the queue make of them.
pub struct IndexFields {
    pub empty: bool,
    pub stored: Result<Option<Vec<u8>>, String>,
    pub keys: Result<Vec<(String, Vec<u8>)>, String>,
}

pub ghost struct EntityV {
    pub document: JsonV,
    pub keys: Result<Seq<(Seq<char>, Seq<u8>)>, Seq<char>>,
}

/// Index keys by their characters and bytes.
pub open spec fn keys_view(v: Seq<(String, Vec<u8>)>) -> Seq<(Seq<char>, Seq<u8>)> {
    v.map_values(|k: (String, Vec<u8>)| (k.0@, k.1@))
}

impl Entity {
    pub open spec fn view(&self) -> EntityV {
        EntityV {
            document: self.document@,
            keys: match self.keys {
                Ok(k) => Ok(keys_view(k@)),
                Err(m) => Err(m@),
            },
        }
    }
}

pub open spec fn opt_doc(d: Option<Arc<Entity>>) -> Option<EntityV> {
    match d {
        Some(x) => Some(x@),
        None => None,
    }
}

pub fn share_opt_bytes(b: &Option<Bytes>) -> (r: Option<Bytes>)
    ensures
        opt_bytes(r) == opt_bytes(*b),
{
    match b {
        Some(x) => Some(bytes_share(x)),
        None => None,
    }
}

pub fn same_opt_bytes(a: &Option<Bytes>, b: &Option<Bytes>) -> (r: bool)
    ensures
        r <==> opt_bytes(*a) == opt_bytes(*b),
{
    match (a, b) {
        (None, None) => true,
        (Some(x), Some(y)) => {
            match crate::order::bytes_standing(bytes_slice(x), bytes_slice(y)) {
                Standing::Same => true,
                _ => false,
            }
        },
        _ => false,
    }
}

pub fn share_opt_doc(d: &Option<Arc<Entity>>) -> (r: Option<Arc<Entity>>)
    ensures
        r == *d,
{
    match d {
        Some(x) => Some(crate::shared::share(x)),
        None => None,
    }
}

/// The value type of an index field.
#[derive(Clone, Copy, PartialEq, Eq, Structural, Debug)]
pub enum IndexType {
    String,
    Integer,
    Float,
    Boolean,
    Datetime,
}

/// A value of an index field. A float stands by its bits.
#[derive(Debug, PartialEq, Eq)]
pub enum TypedValue {
    String(String),
    Integer(i64),
    Float(u64),
    Bool(bool),
    DateTime(UtcTimestamp),
}

pub ghost enum TypedV {
    String(Seq<char>),
    Integer(i64),
    Float(u64),
    Bool(bool),
    DateTime(UtcTimestamp),
}

impl TypedValue {
    pub open spec fn view(&self) -> TypedV {
        match self {
            TypedValue::String(t) => TypedV::String(t@),
            TypedValue::Integer(v) => TypedV::Integer(*v),
            TypedValue::Float(v) => TypedV::Float(*v),
            TypedValue::Bool(v) => TypedV::Bool(*v),
            TypedValue::DateTime(v) => TypedV::DateTime(*v),
        }
    }

    pub fn duplicate(&self) -> (r: TypedValue)
        ensures
            r == *self,
    {
        match self {
            TypedValue::String(t) => TypedValue::String(t.clone()),
            TypedValue::Integer(v) => TypedValue::Integer(*v),
            TypedValue::Float(v) => TypedValue::Float(*v),
            TypedValue::Bool(v) => TypedValue::Bool(*v),
            TypedValue::DateTime(v) => TypedValue::DateTime(*v),
        }
    }
}

/// An index over raw item fields.
#[derive(Debug, PartialEq, Eq)]
pub struct IndexSpec {
    pub name: String,
    pub fields: Vec<String>,
    pub unique: bool,
}

pub ghost struct IndexSpecV {
    pub name: Seq<char>,
    pub fields: Seq<Seq<char>>,
    pub unique: bool,
}

impl IndexSpec {
    pub open spec fn view(&self) -> IndexSpecV {
        IndexSpecV { name: self.name@, fields: texts(self.fields@), unique: self.unique }
    }
}

/// One field of a typed index.
#[derive(Debug, PartialEq, Eq)]
pub struct IndexField {
    pub field: String,
    pub index_type: IndexType,
}

/// An index over typed values of the entity document.
#[derive(Debug, PartialEq, Eq)]
pub struct QueueIndex {
    pub name: String,
    pub fields: Vec<IndexField>,
    pub unique: bool,
}

pub ghost struct QueueIndexV {
    pub name: Seq<char>,
    pub fields: Seq<(Seq<char>, IndexType)>,
    pub unique: bool,
}

pub open spec fn index_fields_v(f: Seq<IndexField>) -> Seq<(Seq<char>, IndexType)> {
    f.map_values(|x: IndexField| (x.field@, x.index_type))
}

impl QueueIndex {
    pub open spec fn view(&self) -> QueueIndexV {
        QueueIndexV { name: self.name@, fields: index_fields_v(self.fields@), unique: self.unique }
    }
}

pub open spec fn specs_v(s: Seq<IndexSpec>) -> Seq<IndexSpecV> {
    s.map_values(|x: IndexSpec| x@)
}

pub open spec fn typed_specs_v(s: Seq<QueueIndex>) -> Seq<QueueIndexV> {
    s.map_values(|x: QueueIndex| x@)
}

/// An item as it is pushed.
pub struct PushItem {
    pub client_item_key: String,
    pub item_id: ItemId,
    pub priority: Option<PriorityValue>,
    pub not_before: Option<UtcTimestamp>,
    pub group_key: Option<String>,
    pub max_attempts: u32,
    pub payload: Option<Bytes>,
    pub fields: Arc<FieldMap>,
    pub metadata: Arc<Metadata>,
    pub cohort_size: Option<u64>,
    pub gate_keys: Arc<Vec<String>>,
    pub entity_document: Option<Arc<Entity>>,
    /// Typed index values given beside the document, or else taken from it.
    pub index_fields: Arc<IndexFields>,
}

/// Whether a value is kept or replaced.
pub enum PayloadUpdate {
    Keep,
    Replace(Option<Bytes>),
}

pub enum PriorityUpdate {
    Keep,
    Replace(Option<PriorityValue>),
}

#[derive(Clone, Copy, PartialEq, Eq, Structural, Debug)]
pub enum NotBeforeUpdate {
    Keep,
    Replace(Option<UtcTimestamp>),
}

/// A change of a live item's values.
pub struct UpdateFieldsCommand {
    pub item_id: ItemId,
    pub client_item_key: Option<String>,
    pub expected_item_version: Option<u64>,
    /// Fields to set or, without a value, to drop.
    pub field_ops: Vec<(String, Option<Bytes>)>,
    pub payload: PayloadUpdate,
    pub set_priority: PriorityUpdate,
    pub set_not_before: NotBeforeUpdate,
    pub set_entity_document: Option<Arc<Entity>>,
    pub set_fields: Option<Arc<FieldMap>>,
    pub set_metadata: Option<Arc<Metadata>>,
    pub set_gate_keys: Option<Arc<Vec<String>>>,
    pub api001_batch: bool,
}

#[derive(Clone, Copy, PartialEq, Eq, Structural, Debug)]
pub enum FinalizeKind {
    Complete,
    Fail,
    Retry,
    Release,
    Rearm,
}

#[derive(Clone, Copy, PartialEq, Eq, Structural, Debug)]
pub struct FinalizeOutcome {
    pub item_id: ItemId,
    pub kind: FinalizeKind,
    pub applied_state: Option<ItemState>,
    pub not_before: Option<UtcTimestamp>,
}

impl FinalizeOutcome {
    pub fn new(item_id: ItemId, kind: FinalizeKind) -> (r: FinalizeOutcome)
        ensures
            r == (FinalizeOutcome { item_id, kind, applied_state: None, not_before: None }),
    {
        FinalizeOutcome { item_id, kind, applied_state: None, not_before: None }
    }
}

/// The whole of an item's mutable values, as a mutation resolved them.
pub struct ResolvedItemValues {
    pub state: ItemState,
    pub item_version: u64,
    pub priority: Option<PriorityValue>,
    pub not_before: Option<UtcTimestamp>,
    pub eligible_since: UtcTimestamp,
    pub payload: Option<Bytes>,
    pub fields: Arc<FieldMap>,
    pub metadata: Arc<Metadata>,
    pub gate_keys: Arc<Vec<String>>,
    pub entity_document: Option<Arc<Entity>>,
    pub index_fields: Arc<IndexFields>,
    pub invalidate_lease: bool,
}

pub enum ResolvedItemMutationAction {
    Purge,
    Replace(ResolvedItemValues),
}

pub struct ResolvedItemMutation {
    pub item_id: ItemId,
    pub action: ResolvedItemMutationAction,
}

/// Gates to block or to open.
pub struct GateChange {
    pub gate_keys: Vec<String>,
    pub blocked: bool,
}

pub struct MutateItemsCommand {
    pub items: Vec<ResolvedItemMutation>,
    pub gate_changes: Vec<GateChange>,
}

pub struct ClaimCommand {
    pub item_ids: Vec<ItemId>,
    pub lease_token: String,
    pub lease_expires_at: UtcTimestamp,
    pub worker_id: Option<String>,
}

pub struct CohortClaimCommand {
    pub cohort_id: String,
    pub item_ids: Vec<ItemId>,
    pub lease_token: String,
    pub lease_expires_at: UtcTimestamp,
}

pub struct RenewLeaseCommand {
    pub item_ids: Vec<ItemId>,
    pub lease_expires_at: UtcTimestamp,
}

pub struct CohortRenewLeaseCommand {
    pub cohort_id: String,
    pub lease_expires_at: UtcTimestamp,
}

pub struct ReassignLeaseCommand {
    pub item_ids: Vec<ItemId>,
    pub lease_token: String,
    pub lease_expires_at: UtcTimestamp,
}

pub struct CohortFinalizeCommand {
    pub cohort_id: String,
    pub kind: FinalizeKind,
    pub not_before: Option<UtcTimestamp>,
}

pub struct ReplacePendingCommand {
    pub superseded_item_id: ItemId,
    pub client_item_key: String,
    pub replacement: PushItem,
}

pub struct SideRecord {
    pub key: Vec<u8>,
    pub payload: Bytes,
}

pub struct AdvanceInstanceFenceCommand {
    pub instance_key: Vec<u8>,
    pub expected: u64,
    pub next: u64,
}

pub struct PurgeItemsCommand {
    pub item_ids: Vec<ItemId>,
    pub force: bool,
}

/// A committed change of a queue.
pub enum QueueCommand {
    CreateQueue,
    Push(Vec<PushItem>),
    Claim(ClaimCommand),
    CohortClaim(CohortClaimCommand),
    RenewLease(RenewLeaseCommand),
    CohortRenewLease(CohortRenewLeaseCommand),
    ReassignLease(ReassignLeaseCommand),
    UpdateFields(UpdateFieldsCommand),
    UpdateFieldsBatch(Vec<UpdateFieldsCommand>),
    MutateItems(MutateItemsCommand),
    Finalize(Vec<FinalizeOutcome>),
    CohortFinalize(CohortFinalizeCommand),
    ReplacePending(ReplacePendingCommand),
    LeaseExpired(Vec<ItemId>),
    CohortExpired(String),
    FenceLease(Vec<ItemId>),
    UnfenceLease(Vec<ItemId>),
    PauseQueue(bool),
    ResumeQueue,
    SetGates(GateChange),
    WriteSideRecords(Vec<SideRecord>),
    AdvanceInstanceFence(AdvanceInstanceFenceCommand),
    PurgeItems(PurgeItemsCommand),
}

/// A response as it is stored, with why it cannot be read or written, if so.
pub struct ResponseText {
    pub text: String,
    pub fault: Option<String>,
}

/// What a request is answered with when it comes again.
pub enum RequestOutcome {
    /// The minted items, with the fingerprint of what was pushed.
    Push { item_ids: Vec<ItemId>, fingerprint: Result<Vec<u8>, String> },
    ItemMutation(ResponseText),
    BatchUpdate(ResponseText),
    CommitTransition(ResponseText),
    ClaimByQuery { item_ids: Vec<ItemId>, lease_token: String, worker_id: Option<String> },
}

/// A command as it is logged.
pub struct CommandEnvelope {
    pub command_id: String,
    pub request_id: Option<String>,
    pub request_fingerprint: Option<u64>,
    pub request_outcome: Option<RequestOutcome>,
    pub command: QueueCommand,
    pub created_at: UtcTimestamp,
}

/// The settings of a queue that the projections read.
pub struct QueueDefinition {
    pub priority_model: PriorityModel,
    pub ordering_mode: OrderingMode,
    pub max_rank_error: u32,
    pub recurrence: RecurrencePolicy,
    pub eligibility_policy: EligibilityPolicy,
    /// The time a cohort has to complete, where the queue forms cohorts and bounds them.
    pub cohort_completion_bound_ms: Option<u64>,
    pub request_id_retention_ms: u64,
    pub client_item_key_retention_ms: u64,
    pub terminal_retention_ms: u64,
    pub secondary_indexes: Vec<IndexSpec>,
    pub typed_indexes: Vec<QueueIndex>,
}

} // verus!
