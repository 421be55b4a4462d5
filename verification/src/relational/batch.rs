//! Many updates of live items at once.

use crate::order::OrdSet;
use crate::relational::codec::{elig_sort, fields_text, fields_to_json, nanos, sort_column, ts_nanos};
use crate::relational::cohorts::Queues;
use crate::relational::exec::{RelCodec, RelSession, RelTx};
use crate::relational::insert::{gate_cells, pair_params, pairs_v};
use crate::relational::lists::{FromRow, contents, contents_outcome, params_v, query_listed, reads_in, rows_in, run_listed, run_rows, runs_in};
use crate::relational::memory::{DriverMemory, Kept, MemoryV, each_kept, hint_reset, hold};
use crate::relational::query::{own, own_params, reset_claim_scan_hint};
use crate::relational::script::{Script, chain, fold, group_talk, held, lemma_start, reached};
use crate::relational::summary::{GroupItemRef, RefV, apply_group_summary_remove, apply_group_summary_rerank, groups_in, refresh_group_summaries, refreshes, refs_v, removes, reranks, unique_groups};
use crate::relational::update::{CurrentV, CurrentValues, GATE_ROW, INSERT_UPDATED_GATES, INSERT_UPDATED_GATES_END, LIVE_ONLY, NOT_SUPERSEDED, ROW_WITHOUT_PAYLOAD, ROW_WITH_PAYLOAD, SELECT_BY_CLIENT_KEY, SELECT_LIVE_WITHOUT_PAYLOAD, SELECT_LIVE_WITH_PAYLOAD, UPDATE_FIELDS_BATCH, UPDATE_WITHOUT_PAYLOAD, UPDATE_WITHOUT_PAYLOAD_END, UPDATE_WITH_PAYLOAD, UPDATE_WITH_PAYLOAD_END, apply_update_fields_sql, is_rescheduling, reschedules_item, revise, revises, updates};
use crate::relational::value::{CellV, Params, RelRow, blob_cell, column, int_cell, text_cell};
use crate::sql::async_projection::DELETE_ITEM_GATES;
use crate::text::{contains_text, decimal, numeral, opt_text, same_text, texts};
use crate::types::{EngineError, EngineResult, ErrorV, NotBeforeUpdate, PayloadUpdate, PriorityModel, PriorityV, QueueDefinition, QueueKey, QueueV, UpdateFieldsCommand, UtcTimestamp, field_bytes, outcome};
use vstd::prelude::*;
use vstd::string::*;

verus! {

broadcast use group_talk;

/// The update only replaces whole values, so that many can be made in one statement.
pub open spec fn whole(c: UpdateFieldsCommand) -> bool {
    c.field_ops@.len() == 0 && c.set_entity_document is None
}

pub open spec fn all_whole(updates: Seq<UpdateFieldsCommand>) -> bool {
    forall|i: int| 0 <= i < updates.len() ==> whole(#[trigger] updates[i])
}

pub fn is_whole(c: &UpdateFieldsCommand) -> (r: bool)
    ensures
        r == whole(*c),
{
    c.field_ops.len() == 0 && c.set_entity_document.is_none()
}

pub fn update_fields_batch_is_set_based(updates: &Vec<UpdateFieldsCommand>) -> (r: bool)
    ensures
        r == all_whole(updates@),
{
    let mut i: usize = 0;
    while i < updates.len()
        invariant
            i <= updates@.len(),
            forall|j: int| 0 <= j < i ==> whole(#[trigger] updates@[j]),
        decreases updates@.len() - i,
    {
        if !is_whole(&updates[i]) {
            assert(!whole(updates@[i as int]));
            return false;
        }
        i = i + 1;
    }
    true
}

/// Commands that are held by reference.
pub open spec fn derefs(v: Seq<&UpdateFieldsCommand>) -> Seq<UpdateFieldsCommand> {
    v.map_values(|c: &UpdateFieldsCommand| *c)
}

fn are_whole(updates: &Vec<&UpdateFieldsCommand>) -> (r: bool)
    ensures
        r == all_whole(derefs(updates@)),
{
    let mut i: usize = 0;
    while i < updates.len()
        invariant
            i <= updates@.len(),
            forall|j: int| 0 <= j < i ==> whole(#[trigger] derefs(updates@)[j]),
        decreases updates@.len() - i,
    {
        if !is_whole(updates[i]) {
            assert(!whole(derefs(updates@)[i as int]));
            return false;
        }
        i = i + 1;
    }
    true
}

/// Adds references to some commands to a list.
pub fn add_refs<'a>(out: &mut Vec<&'a UpdateFieldsCommand>, list: &'a Vec<UpdateFieldsCommand>)
    ensures
        derefs(final(out)@) == derefs(old(out)@) + list@,
{
    let ghost start = derefs(out@);
    let mut i: usize = 0;
    assert(start + list@.take(0) =~= start);
    while i < list.len()
        invariant
            i <= list@.len(),
            derefs(out@) == start + list@.take(i as int),
        decreases list@.len() - i,
    {
        let ghost before = out@;
        out.push(&list[i]);
        proof {
            assert(derefs(out@) =~= derefs(before).push(list@[i as int]));
            assert(start + list@.take(i as int + 1) =~= (start + list@.take(i as int)).push(
                list@[i as int],
            ));
        }
        i = i + 1;
    }
    assert(list@.take(i as int) =~= list@);
}

/// An item by the key that its client gave it.
pub struct KeyRow {
    pub key: String,
    pub item_id: String,
}

impl FromRow for KeyRow {
    type V = (Seq<char>, Seq<char>);

    open spec fn content(&self) -> (Seq<char>, Seq<char>) {
        (self.key@, self.item_id@)
    }

    open spec fn row_reading(row: Seq<CellV>) -> Result<(Seq<char>, Seq<char>), ErrorV> {
        match column::<String>(row, 1) {
            Err(e) => Err(e),
            Ok(key) => match column::<String>(row, 0) {
                Err(e) => Err(e),
                Ok(id) => Ok((key, id)),
            },
        }
    }

    fn from_row(row: &RelRow) -> (r: EngineResult<KeyRow>) {
        let key = match row.get::<String>(1) {
            Err(e) => return Err(e),
            Ok(v) => v,
        };
        match row.get::<String>(0) {
            Err(e) => Err(e),
            Ok(item_id) => Ok(KeyRow { key, item_id }),
        }
    }
}

/// The item that was last found under a key.
pub open spec fn item_under(rows: Seq<(Seq<char>, Seq<char>)>, key: Seq<char>) -> Option<Seq<char>>
    decreases rows.len(),
{
    if rows.len() == 0 {
        None
    } else if rows.last().0 == key {
        Some(rows.last().1)
    } else {
        item_under(rows.drop_last(), key)
    }
}

fn find_under(rows: &Vec<KeyRow>, key: &str) -> (r: Option<String>)
    ensures
        opt_text(r) == item_under(contents(rows@), key@),
{
    let ghost all = contents(rows@);
    let mut i: usize = rows.len();
    assert(all.take(i as int) =~= all);
    while i > 0
        invariant
            i <= rows@.len(),
            all == contents(rows@),
            item_under(all, key@) == item_under(all.take(i as int), key@),
        decreases i,
    {
        proof {
            assert(all.take(i as int).drop_last() =~= all.take(i as int - 1));
            assert(all.take(i as int).last() == rows@[i as int - 1].content());
        }
        if same_text(rows[i - 1].key.as_str(), key) {
            return Some(rows[i - 1].item_id.clone());
        }
        i = i - 1;
    }
    None
}

/// The keys of updates that name no item.
pub open spec fn open_keys(updates: Seq<UpdateFieldsCommand>) -> Seq<Seq<char>>
    decreases updates.len(),
{
    if updates.len() == 0 {
        Seq::empty()
    } else {
        let before = open_keys(updates.drop_last());
        match updates.last().client_item_key {
            Some(k) => if updates.last().item_id == 0 {
                before.push(k@)
            } else {
                before
            },
            None => before,
        }
    }
}

fn collect_open_keys(updates: &Vec<&UpdateFieldsCommand>) -> (r: Vec<String>)
    ensures
        texts(r@) == open_keys(derefs(updates@)),
{
    let mut out: Vec<String> = Vec::new();
    let mut i: usize = 0;
    assert(derefs(updates@).take(0) =~= Seq::<UpdateFieldsCommand>::empty());
    assert(texts(out@) =~= Seq::<Seq<char>>::empty());
    while i < updates.len()
        invariant
            i <= derefs(updates@).len(),
            texts(out@) == open_keys(derefs(updates@).take(i as int)),
        decreases derefs(updates@).len() - i,
    {
        proof {
            assert(derefs(updates@).take(i as int + 1).drop_last() =~= derefs(updates@).take(i as int));
            assert(derefs(updates@).take(i as int + 1).last() == derefs(updates@)[i as int]);
        }
        match &updates[i].client_item_key {
            Some(k) => {
                if updates[i].item_id == 0 {
                    let ghost before = out@;
                    out.push(k.clone());
                    assert(texts(out@) =~= texts(before).push(k@));
                }
            },
            None => {},
        }
        i = i + 1;
    }
    assert(derefs(updates@).take(i as int) =~= derefs(updates@));
    out
}

/// The item that an update is for: the one it names, or the one under its key.
pub open spec fn aim(c: UpdateFieldsCommand, resolved: Seq<(Seq<char>, Seq<char>)>) -> Option<
    Seq<char>,
> {
    if c.item_id == 0 {
        match c.client_item_key {
            Some(k) => item_under(resolved, k@),
            None => None,
        }
    } else {
        Some(numeral(c.item_id as nat))
    }
}

fn find_aim(c: &UpdateFieldsCommand, resolved: &Vec<KeyRow>) -> (r: Option<String>)
    ensures
        opt_text(r) == aim(*c, contents(resolved@)),
{
    if c.item_id == 0 {
        match &c.client_item_key {
            Some(k) => find_under(resolved, k.as_str()),
            None => None,
        }
    } else {
        Some(decimal(c.item_id))
    }
}

/// The items that updates are for.
pub open spec fn aims(
    updates: Seq<UpdateFieldsCommand>,
    resolved: Seq<(Seq<char>, Seq<char>)>,
) -> Seq<Seq<char>>
    decreases updates.len(),
{
    if updates.len() == 0 {
        Seq::empty()
    } else {
        let before = aims(updates.drop_last(), resolved);
        match aim(updates.last(), resolved) {
            Some(id) => before.push(id),
            None => before,
        }
    }
}

fn collect_aims(updates: &Vec<&UpdateFieldsCommand>, resolved: &Vec<KeyRow>) -> (r: Vec<String>)
    ensures
        texts(r@) == aims(derefs(updates@), contents(resolved@)),
{
    let mut out: Vec<String> = Vec::new();
    let mut i: usize = 0;
    assert(derefs(updates@).take(0) =~= Seq::<UpdateFieldsCommand>::empty());
    assert(texts(out@) =~= Seq::<Seq<char>>::empty());
    while i < updates.len()
        invariant
            i <= derefs(updates@).len(),
            texts(out@) == aims(derefs(updates@).take(i as int), contents(resolved@)),
        decreases derefs(updates@).len() - i,
    {
        proof {
            assert(derefs(updates@).take(i as int + 1).drop_last() =~= derefs(updates@).take(i as int));
            assert(derefs(updates@).take(i as int + 1).last() == derefs(updates@)[i as int]);
        }
        match find_aim(updates[i], resolved) {
            Some(id) => {
                let ghost before = out@;
                out.push(id);
                assert(texts(out@) =~= texts(before).push(id@));
            },
            None => {},
        }
        i = i + 1;
    }
    assert(derefs(updates@).take(i as int) =~= derefs(updates@));
    out
}

/// A live item as a batch of updates finds it.
pub struct LiveRow {
    pub item_id: String,
    pub values: CurrentValues,
    pub group_key: Option<String>,
    pub created_at: i64,
    pub created_seq: i64,
    pub item_version: i64,
    pub state: String,
}

pub ghost struct LiveRowV {
    pub item_id: Seq<char>,
    pub values: CurrentV,
    pub group_key: Option<Seq<char>>,
    pub created_at: i64,
    pub created_seq: i64,
    pub item_version: i64,
    pub state: Seq<char>,
}

impl LiveRow {
    pub open spec fn view(&self) -> LiveRowV {
        LiveRowV {
            item_id: self.item_id@,
            values: self.values@,
            group_key: opt_text(self.group_key),
            created_at: self.created_at,
            created_seq: self.created_seq,
            item_version: self.item_version,
            state: self.state@,
        }
    }
}

/// The payload of a live row, where it was asked for.
pub open spec fn live_payload(row: Seq<CellV>, with_payload: bool) -> Result<
    Option<Seq<u8>>,
    ErrorV,
> {
    if with_payload {
        column::<Option<Vec<u8>>>(row, 6)
    } else {
        Ok(None)
    }
}

/// The first half of a live row: the item's values.
pub open spec fn live_values(row: Seq<CellV>, with_payload: bool) -> Result<
    (Seq<char>, CurrentV),
    ErrorV,
> {
    match (column::<String>(row, 0), column::<String>(row, 1), column::<Option<String>>(row, 3)) {
        (Err(e), _, _) => Err(e),
        (_, Err(e), _) => Err(e),
        (_, _, Err(e)) => Err(e),
        (Ok(id), Ok(fields), Ok(priority)) => match (
            column::<Option<i64>>(row, 4),
            column::<i64>(row, 5),
        ) {
            (Err(e), _) => Err(e),
            (_, Err(e)) => Err(e),
            (Ok(not_before), Ok(eligible_since)) => match (
                live_payload(row, with_payload),
                column::<String>(row, 7),
            ) {
                (Err(e), _) => Err(e),
                (_, Err(e)) => Err(e),
                (Ok(payload), Ok(metadata)) => Ok(
                    (
                        id,
                        CurrentV {
                            fields,
                            priority,
                            not_before,
                            eligible_since,
                            payload,
                            metadata,
                        },
                    ),
                ),
            },
        },
    }
}

fn read_values(row: &RelRow, with_payload: bool) -> (r: EngineResult<(String, CurrentValues)>)
    ensures
        (match r {
            Ok(x) => Ok((x.0@, x.1@)),
            Err(e) => Err(e@),
        }) == live_values(row@, with_payload),
{
    let id = match row.get::<String>(0) {
        Err(e) => return Err(e),
        Ok(v) => v,
    };
    let fields = match row.get::<String>(1) {
        Err(e) => return Err(e),
        Ok(v) => v,
    };
    let priority = match row.get::<Option<String>>(3) {
        Err(e) => return Err(e),
        Ok(v) => v,
    };
    let not_before = match row.get::<Option<i64>>(4) {
        Err(e) => return Err(e),
        Ok(v) => v,
    };
    let eligible_since = match row.get::<i64>(5) {
        Err(e) => return Err(e),
        Ok(v) => v,
    };
    let payload = if with_payload {
        match row.get::<Option<Vec<u8>>>(6) {
            Err(e) => return Err(e),
            Ok(v) => v,
        }
    } else {
        None
    };
    let metadata = match row.get::<String>(7) {
        Err(e) => return Err(e),
        Ok(v) => v,
    };
    Ok((id, CurrentValues { fields, priority, not_before, eligible_since, payload, metadata }))
}

pub open spec fn live_row(row: Seq<CellV>, with_payload: bool) -> Result<LiveRowV, ErrorV> {
    match live_values(row, with_payload) {
        Err(e) => Err(e),
        Ok((item_id, values)) => match (
            column::<Option<String>>(row, 8),
            column::<i64>(row, 9),
            column::<i64>(row, 10),
        ) {
            (Err(e), _, _) => Err(e),
            (_, Err(e), _) => Err(e),
            (_, _, Err(e)) => Err(e),
            (Ok(group_key), Ok(created_at), Ok(created_seq)) => match (
                column::<i64>(row, 11),
                column::<String>(row, 2),
            ) {
                (Err(e), _) => Err(e),
                (_, Err(e)) => Err(e),
                (Ok(item_version), Ok(state)) => Ok(
                    LiveRowV {
                        item_id,
                        values,
                        group_key,
                        created_at,
                        created_seq,
                        item_version,
                        state,
                    },
                ),
            },
        },
    }
}

fn read_live(row: &RelRow, with_payload: bool) -> (r: EngineResult<LiveRow>)
    ensures
        (match r {
            Ok(x) => Ok(x@),
            Err(e) => Err(e@),
        }) == live_row(row@, with_payload),
{
    let (item_id, values) = match read_values(row, with_payload) {
        Err(e) => return Err(e),
        Ok(x) => x,
    };
    let group_key = match row.get::<Option<String>>(8) {
        Err(e) => return Err(e),
        Ok(v) => v,
    };
    let created_at = match row.get::<i64>(9) {
        Err(e) => return Err(e),
        Ok(v) => v,
    };
    let created_seq = match row.get::<i64>(10) {
        Err(e) => return Err(e),
        Ok(v) => v,
    };
    let item_version = match row.get::<i64>(11) {
        Err(e) => return Err(e),
        Ok(v) => v,
    };
    match row.get::<String>(2) {
        Err(e) => Err(e),
        Ok(state) => Ok(
            LiveRow { item_id, values, group_key, created_at, created_seq, item_version, state },
        ),
    }
}

impl FromRow for LiveRow {
    type V = LiveRowV;

    open spec fn content(&self) -> LiveRowV {
        self@
    }

    open spec fn row_reading(row: Seq<CellV>) -> Result<LiveRowV, ErrorV> {
        live_row(row, true)
    }

    fn from_row(row: &RelRow) -> (r: EngineResult<LiveRow>) {
        read_live(row, true)
    }
}

/// A live item whose payload was not asked for.
pub struct BareRow(pub LiveRow);

impl FromRow for BareRow {
    type V = LiveRowV;

    open spec fn content(&self) -> LiveRowV {
        self.0@
    }

    open spec fn row_reading(row: Seq<CellV>) -> Result<LiveRowV, ErrorV> {
        live_row(row, false)
    }

    fn from_row(row: &RelRow) -> (r: EngineResult<BareRow>) {
        match read_live(row, false) {
            Err(e) => Err(e),
            Ok(x) => Ok(BareRow(x)),
        }
    }
}

fn unwrap_bare(rows: Vec<BareRow>) -> (r: Vec<LiveRow>)
    ensures
        contents(r@) == contents(rows@),
{
    let ghost all = contents(rows@);
    let mut rest = rows;
    let mut out: Vec<LiveRow> = Vec::new();
    let n = rest.len();
    let mut i: usize = 0;
    assert(rest@ =~= rows@.skip(0));
    while i < n
        invariant
            i <= n,
            n == rows@.len(),
            all == contents(rows@),
            rest@ == rows@.skip(i as int),
            contents(out@) == all.take(i as int),
        decreases n - i,
    {
        let ghost before = out@;
        let row = rest.remove(0);
        let BareRow(x) = row;
        out.push(x);
        proof {
            assert(all[i as int] == x@);
            assert(contents(out@) =~= contents(before).push(x@));
            assert(all.take(i as int + 1) =~= all.take(i as int).push(all[i as int]));
            assert(rest@ =~= rows@.skip(i as int + 1));
        }
        i = i + 1;
    }
    assert(all.take(i as int) =~= all);
    out
}

/// The row that was last read of an item.
pub open spec fn live_of(rows: Seq<LiveRowV>, id: Seq<char>) -> Option<LiveRowV>
    decreases rows.len(),
{
    if rows.len() == 0 {
        None
    } else if rows.last().item_id == id {
        Some(rows.last())
    } else {
        live_of(rows.drop_last(), id)
    }
}

fn find_live<'a>(rows: &'a Vec<LiveRow>, id: &str) -> (r: Option<&'a LiveRow>)
    ensures
        (match r {
            Some(x) => Some(x@),
            None => None,
        }) == live_of(contents(rows@), id@),
{
    let ghost all = contents(rows@);
    let mut i: usize = rows.len();
    assert(all.take(i as int) =~= all);
    while i > 0
        invariant
            i <= rows@.len(),
            all == contents(rows@),
            live_of(all, id@) == live_of(all.take(i as int), id@),
        decreases i,
    {
        proof {
            assert(all.take(i as int).drop_last() =~= all.take(i as int - 1));
            assert(all.take(i as int).last() == rows@[i as int - 1].content());
        }
        if same_text(rows[i - 1].item_id.as_str(), id) {
            return Some(&rows[i - 1]);
        }
        i = i - 1;
    }
    None
}

/// The update does not apply to the row as it stands: it is for pending items only, or for another
/// version.
pub open spec fn passes_by(c: UpdateFieldsCommand, row: LiveRowV) -> bool {
    (c.api001_batch && row.state != "Pending"@) || (match c.expected_item_version {
        Some(v) => v != row.item_version as u64,
        None => false,
    })
}

fn is_passed_by(c: &UpdateFieldsCommand, row: &LiveRow) -> (r: bool)
    ensures
        r == passes_by(*c, row@),
{
    if c.api001_batch && !same_text(row.state.as_str(), "Pending") {
        return true;
    }
    match c.expected_item_version {
        Some(v) => v != row.item_version as u64,
        None => false,
    }
}

/// What a batch of updates has come to: the items it has met, the rows to write, the grouped items
/// that stay eligible and those that leave.
pub ghost struct Staging {
    pub met: Set<Seq<char>>,
    pub rows: Seq<Seq<CellV>>,
    pub ranked: Seq<RefV>,
    pub left: Seq<RefV>,
}

pub open spec fn no_staging() -> Staging {
    Staging { met: Set::empty(), rows: Seq::empty(), ranked: Seq::empty(), left: Seq::empty() }
}

/// The row that a batch writes for an item.
pub open spec fn written_row(id: Seq<char>, v: CurrentV, sort: Seq<u8>, with_payload: bool) -> Seq<
    CellV,
> {
    let head = Seq::<CellV>::empty().push(CellV::Text(id)).push(CellV::Text(v.fields));
    (if with_payload {
        head.push(blob_cell(v.payload))
    } else {
        head
    }).push(CellV::Text(v.metadata)).push(text_cell(v.priority)).push(CellV::Blob(sort)).push(
        int_cell(v.not_before),
    ).push(CellV::Integer(v.eligible_since))
}

/// The item waits for a time to come.
pub open spec fn waits(v: CurrentV, now: i64) -> bool {
    match v.not_before {
        Some(t) => t > now,
        None => false,
    }
}

pub open spec fn staged(
    s: Staging,
    id: Seq<char>,
    row: LiveRowV,
    v: CurrentV,
    sort: Seq<u8>,
    with_payload: bool,
    now: i64,
) -> Staging {
    let t = Staging {
        met: s.met.insert(id),
        rows: s.rows.push(written_row(id, v, sort, with_payload)),
        ..s
    };
    match row.group_key {
        None => t,
        Some(g) => {
            let item = RefV {
                group_key: g,
                item_id: id,
                eligible_since: v.eligible_since,
                priority_sort: sort,
                created_at: row.created_at,
                created_seq: row.created_seq,
            };
            if waits(v, now) {
                Staging { left: t.left.push(item), ..t }
            } else {
                Staging { ranked: t.ranked.push(item), ..t }
            }
        },
    }
}

/// The fields text after an update that gives all fields or none.
pub open spec fn whole_fields(raw: Seq<char>, c: UpdateFieldsCommand) -> Result<Seq<char>, ErrorV> {
    match c.set_fields {
        Some(f) => fields_text(field_bytes(*f)),
        None => Ok(raw),
    }
}

/// What a batch does with one update. Each item is taken once; a later update of it finds nothing.
pub open spec fn stages(
    rows: Seq<LiveRowV>,
    resolved: Seq<(Seq<char>, Seq<char>)>,
    model: PriorityModel,
    with_payload: bool,
    now: i64,
) -> spec_fn(Staging, UpdateFieldsCommand) -> Script<Result<Staging, ErrorV>> {
    |s: Staging, c: UpdateFieldsCommand|
        {
            let id = match aim(c, resolved) {
                Some(id) => id,
                None => Seq::empty(),
            };
            let passed = Staging { met: s.met.insert(id), ..s };
            match live_of(rows, id) {
                None => Script::Done(Ok::<Staging, ErrorV>(passed)),
                Some(row) => if s.met.contains(id) || passes_by(c, row) {
                    Script::Done(Ok::<Staging, ErrorV>(passed))
                } else {
                    match whole_fields(row.values.fields, c) {
                        Err(e) => Script::Done(Err::<Staging, ErrorV>(e)),
                        Ok(fields) => chain(
                            revises(row.values, c, fields, now),
                            |x: (CurrentV, Option<PriorityV>)|
                                Script::Done(
                                    Ok::<Staging, ErrorV>(
                                        staged(
                                            s,
                                            id,
                                            row,
                                            x.0,
                                            sort_column(x.1, model),
                                            with_payload,
                                            now,
                                        ),
                                    ),
                                ),
                        ),
                    }
                },
            }
        }
}

struct Stage {
    met: OrdSet<String>,
    rows: Vec<Params>,
    ranked: Vec<GroupItemRef>,
    left: Vec<GroupItemRef>,
}

impl Stage {
    spec fn view(&self) -> Staging {
        Staging {
            met: self.met@,
            rows: params_v(self.rows@),
            ranked: refs_v(self.ranked@),
            left: refs_v(self.left@),
        }
    }

    fn new() -> (r: Stage)
        ensures
            r@ == no_staging(),
    {
        let s = Stage {
            met: OrdSet::new(),
            rows: Vec::new(),
            ranked: Vec::new(),
            left: Vec::new(),
        };
        proof {
            assert(params_v(s.rows@) =~= Seq::<Seq<CellV>>::empty());
            assert(refs_v(s.ranked@) =~= Seq::<RefV>::empty());
            assert(refs_v(s.left@) =~= Seq::<RefV>::empty());
        }
        s
    }

    fn put(
        &mut self,
        id: String,
        row: &LiveRow,
        v: CurrentValues,
        sort: Vec<u8>,
        with_payload: bool,
        now_n: i64,
    )
        ensures
            final(self)@ == staged(old(self)@, id@, row@, v@, sort@, with_payload, now_n),
    {
        let ghost before = self@;
        let ghost rows_before = self.rows@;
        let head = Params::new().text(id.as_str()).text(v.fields.as_str());
        let body = if with_payload {
            head.maybe_blob(&v.payload)
        } else {
            head
        };
        let p = body.text(v.metadata.as_str()).maybe_text(&v.priority).blob(&sort).maybe_int(
            v.not_before,
        ).number(v.eligible_since);
        self.rows.push(p);
        assert(params_v(self.rows@) =~= params_v(rows_before).push(p@));
        let waiting = match v.not_before {
            Some(t) => t > now_n,
            None => false,
        };
        match &row.group_key {
            None => {},
            Some(g) => {
                let item = GroupItemRef {
                    group_key: g.clone(),
                    item_id: id.clone(),
                    eligible_since: v.eligible_since,
                    priority_sort: sort,
                    created_at: row.created_at,
                    created_seq: row.created_seq,
                };
                if waiting {
                    let ghost left_before = self.left@;
                    self.left.push(item);
                    assert(refs_v(self.left@) =~= refs_v(left_before).push(item@));
                } else {
                    let ghost ranked_before = self.ranked@;
                    self.ranked.push(item);
                    assert(refs_v(self.ranked@) =~= refs_v(ranked_before).push(item@));
                }
            },
        }
        self.met.insert(id);
    }
}

fn stage_one<T: RelTx + RelCodec>(
    tx: &mut RelSession<T>,
    stage: &mut Stage,
    c: &UpdateFieldsCommand,
    rows: &Vec<LiveRow>,
    resolved: &Vec<KeyRow>,
    model: &PriorityModel,
    with_payload: bool,
    now_n: i64,
) -> (r: EngineResult<()>)
    ensures
        held(
            old(tx).trace(),
            final(tx).trace(),
            stages(contents(rows@), contents(resolved@), *model, with_payload, now_n)(
                old(stage)@,
                *c,
            ),
            (match r {
                Ok(_) => Ok(final(stage)@),
                Err(e) => Err(e@),
            }),
        ),
{
    let ghost before = stage@;
    proof {
        lemma_start(
            tx.trace(),
            stages(contents(rows@), contents(resolved@), *model, with_payload, now_n)(before, *c),
        );
        reveal_strlit("");
    }
    let id = match find_aim(c, resolved) {
        Some(id) => id,
        None => "".to_owned(),
    };
    proof {
        assert(aim(*c, contents(resolved@)) is None ==> id@ =~= Seq::<char>::empty());
    }
    let row = match find_live(rows, id.as_str()) {
        None => {
            stage.met.insert(id);
            return Ok(());
        },
        Some(row) => row,
    };
    if stage.met.contains(&id) || is_passed_by(c, row) {
        stage.met.insert(id);
        return Ok(());
    }
    let fields = match &c.set_fields {
        Some(f) => match fields_to_json(f) {
            Err(e) => return Err(e),
            Ok(t) => t,
        },
        None => row.values.fields.clone(),
    };
    let (v, priority) = match revise(tx, row.values.duplicate(), c, fields, now_n) {
        Err(e) => return Err(e),
        Ok(x) => x,
    };
    let sort = elig_sort(&priority, model);
    stage.put(id, row, v, sort, with_payload, now_n);
    Ok(())
}

/// A batch goes through its updates in order.
pub open spec fn stages_all(
    updates: Seq<UpdateFieldsCommand>,
    rows: Seq<LiveRowV>,
    resolved: Seq<(Seq<char>, Seq<char>)>,
    model: PriorityModel,
    with_payload: bool,
    now: i64,
) -> Script<Result<Staging, ErrorV>> {
    fold(updates, no_staging(), stages(rows, resolved, model, with_payload, now))
}

fn stage_all<T: RelTx + RelCodec>(
    tx: &mut RelSession<T>,
    updates: &Vec<&UpdateFieldsCommand>,
    rows: &Vec<LiveRow>,
    resolved: &Vec<KeyRow>,
    model: &PriorityModel,
    with_payload: bool,
    now_n: i64,
) -> (r: EngineResult<Stage>)
    ensures
        held(
            old(tx).trace(),
            final(tx).trace(),
            stages_all(
                derefs(updates@),
                contents(rows@),
                contents(resolved@),
                *model,
                with_payload,
                now_n,
            ),
            (match r {
                Ok(s) => Ok(s@),
                Err(e) => Err(e@),
            }),
        ),
{
    let ghost all = derefs(updates@);
    let ghost f = stages(contents(rows@), contents(resolved@), *model, with_payload, now_n);
    let ghost prog = stages_all(
        all,
        contents(rows@),
        contents(resolved@),
        *model,
        with_payload,
        now_n,
    );
    let ghost start = tx.trace();
    let mut stage = Stage::new();
    let mut i: usize = 0;
    proof {
        lemma_start(start, prog);
        assert(all.skip(0) =~= all);
    }
    while i < updates.len()
        invariant
            i <= derefs(updates@).len(),
            all == derefs(updates@),
            start == old(tx).trace(),
            f == stages(contents(rows@), contents(resolved@), *model, with_payload, now_n),
            prog == stages_all(
                derefs(updates@),
                contents(rows@),
                contents(resolved@),
                *model,
                with_payload,
                now_n,
            ),
            reached(start, tx.trace(), prog, fold(all.skip(i as int), stage@, f)),
        decreases derefs(updates@).len() - i,
    {
        proof {
            assert(all.skip(i as int)[0] == derefs(updates@)[i as int]);
            assert(all.skip(i as int).drop_first() =~= all.skip(i as int + 1));
        }
        match stage_one(
            tx,
            &mut stage,
            updates[i],
            rows,
            resolved,
            model,
            with_payload,
            now_n,
        ) {
            Err(e) => return Err(e),
            Ok(_) => {},
        }
        i = i + 1;
    }
    assert(all.skip(i as int) =~= Seq::<UpdateFieldsCommand>::empty());
    Ok(stage)
}

/// The items whose gates are replaced.
pub open spec fn regated(updates: Seq<UpdateFieldsCommand>) -> Seq<Seq<char>>
    decreases updates.len(),
{
    if updates.len() == 0 {
        Seq::empty()
    } else if updates.last().set_gate_keys is Some {
        regated(updates.drop_last()).push(numeral(updates.last().item_id as nat))
    } else {
        regated(updates.drop_last())
    }
}

/// Each of the gates beside an item.
pub open spec fn beside(id: Seq<char>, keys: Seq<Seq<char>>) -> Seq<(Seq<char>, Seq<char>)> {
    keys.map_values(|k: Seq<char>| (id, k))
}

/// The gates that the updates give.
pub open spec fn new_gates(updates: Seq<UpdateFieldsCommand>) -> Seq<(Seq<char>, Seq<char>)>
    decreases updates.len(),
{
    if updates.len() == 0 {
        Seq::empty()
    } else {
        let before = new_gates(updates.drop_last());
        match updates.last().set_gate_keys {
            Some(keys) => before + beside(
                numeral(updates.last().item_id as nat),
                texts(keys@),
            ),
            None => before,
        }
    }
}

fn push_beside(out: &mut Vec<(String, String)>, id: &String, keys: &Vec<String>)
    ensures
        pairs_v(final(out)@) == pairs_v(old(out)@) + beside(id@, texts(keys@)),
{
    let ghost start = pairs_v(out@);
    let ghost all = beside(id@, texts(keys@));
    let mut i: usize = 0;
    assert(start + all.take(0) =~= start);
    while i < keys.len()
        invariant
            i <= keys@.len(),
            all == beside(id@, texts(keys@)),
            pairs_v(out@) == start + all.take(i as int),
        decreases keys@.len() - i,
    {
        let ghost before = out@;
        let k = keys[i].clone();
        out.push((id.clone(), k));
        proof {
            assert(texts(keys@)[i as int] == keys@[i as int]@);
            assert(all[i as int] == (id@, k@));
            assert(pairs_v(out@) =~= pairs_v(before).push((id@, k@)));
            assert(start + all.take(i as int + 1) =~= (start + all.take(i as int)).push(
                all[i as int],
            ));
        }
        i = i + 1;
    }
    assert(all.take(i as int) =~= all);
}

fn collect_gates(updates: &Vec<&UpdateFieldsCommand>) -> (r: (Vec<String>, Vec<(String, String)>))
    ensures
        texts(r.0@) == regated(derefs(updates@)),
        pairs_v(r.1@) == new_gates(derefs(updates@)),
{
    let mut ids: Vec<String> = Vec::new();
    let mut pairs: Vec<(String, String)> = Vec::new();
    let mut i: usize = 0;
    assert(derefs(updates@).take(0) =~= Seq::<UpdateFieldsCommand>::empty());
    assert(texts(ids@) =~= Seq::<Seq<char>>::empty());
    assert(pairs_v(pairs@) =~= Seq::<(Seq<char>, Seq<char>)>::empty());
    while i < updates.len()
        invariant
            i <= derefs(updates@).len(),
            texts(ids@) == regated(derefs(updates@).take(i as int)),
            pairs_v(pairs@) == new_gates(derefs(updates@).take(i as int)),
        decreases derefs(updates@).len() - i,
    {
        proof {
            assert(derefs(updates@).take(i as int + 1).drop_last() =~= derefs(updates@).take(i as int));
            assert(derefs(updates@).take(i as int + 1).last() == derefs(updates@)[i as int]);
        }
        match &updates[i].set_gate_keys {
            Some(keys) => {
                let id = decimal(updates[i].item_id);
                push_beside(&mut pairs, &id, keys);
                let ghost before = ids@;
                ids.push(id);
                assert(texts(ids@) =~= texts(before).push(id@));
            },
            None => {},
        }
        i = i + 1;
    }
    assert(derefs(updates@).take(i as int) =~= derefs(updates@));
    (ids, pairs)
}

/// Some update may move its item in the queue's order.
pub open spec fn some_reschedules(updates: Seq<UpdateFieldsCommand>) -> bool {
    exists|i: int| 0 <= i < updates.len() && reschedules_item(#[trigger] updates[i])
}

/// Some update gives its item a new time from which it counts as eligible.
pub open spec fn some_since(updates: Seq<UpdateFieldsCommand>) -> bool {
    exists|i: int|
        0 <= i < updates.len() && (#[trigger] updates[i]).set_not_before is Replace
            && !updates[i].api001_batch
}

pub open spec fn some_payload(updates: Seq<UpdateFieldsCommand>) -> bool {
    exists|i: int| 0 <= i < updates.len() && (#[trigger] updates[i]).payload is Replace
}

pub open spec fn some_kept_payload(updates: Seq<UpdateFieldsCommand>) -> bool {
    exists|i: int| 0 <= i < updates.len() && (#[trigger] updates[i]).payload is Keep
}

struct Traits {
    reschedules: bool,
    since: bool,
    payload: bool,
    kept_payload: bool,
}

fn traits_of(updates: &Vec<&UpdateFieldsCommand>) -> (r: Traits)
    ensures
        r.reschedules == some_reschedules(derefs(updates@)),
        r.since == some_since(derefs(updates@)),
        r.payload == some_payload(derefs(updates@)),
        r.kept_payload == some_kept_payload(derefs(updates@)),
{
    let mut t = Traits { reschedules: false, since: false, payload: false, kept_payload: false };
    let mut i: usize = 0;
    while i < updates.len()
        invariant
            i <= derefs(updates@).len(),
            t.reschedules <==> exists|j: int| 0 <= j < i && reschedules_item(#[trigger] derefs(updates@)[j]),
            t.since <==> exists|j: int|
                0 <= j < i && (#[trigger] derefs(updates@)[j]).set_not_before is Replace
                    && !derefs(updates@)[j].api001_batch,
            t.payload <==> exists|j: int| 0 <= j < i && (#[trigger] derefs(updates@)[j]).payload is Replace,
            t.kept_payload <==> exists|j: int|
                0 <= j < i && (#[trigger] derefs(updates@)[j]).payload is Keep,
        decreases derefs(updates@).len() - i,
    {
        let ghost u = derefs(updates@)[i as int];
        if is_rescheduling(updates[i]) {
            t.reschedules = true;
        }
        match updates[i].set_not_before {
            NotBeforeUpdate::Replace(_) => {
                if !updates[i].api001_batch {
                    t.since = true;
                }
            },
            NotBeforeUpdate::Keep => {},
        }
        match &updates[i].payload {
            PayloadUpdate::Replace(_) => {
                t.payload = true;
            },
            PayloadUpdate::Keep => {
                t.kept_payload = true;
            },
        }
        i = i + 1;
    }
    t
}

/// The items whose groups are, or are not, among some.
pub open spec fn apart(items: Seq<RefV>, groups: Seq<Seq<char>>) -> Seq<RefV>
    decreases items.len(),
{
    if items.len() == 0 {
        Seq::empty()
    } else if groups.contains(items.last().group_key) {
        apart(items.drop_last(), groups)
    } else {
        apart(items.drop_last(), groups).push(items.last())
    }
}

fn set_apart(items: &Vec<GroupItemRef>, groups: &Vec<String>) -> (r: Vec<GroupItemRef>)
    ensures
        refs_v(r@) == apart(refs_v(items@), texts(groups@)),
{
    let ghost all = refs_v(items@);
    let mut out: Vec<GroupItemRef> = Vec::new();
    let mut i: usize = 0;
    assert(all.take(0) =~= Seq::<RefV>::empty());
    assert(refs_v(out@) =~= Seq::<RefV>::empty());
    while i < items.len()
        invariant
            i <= items@.len(),
            all == refs_v(items@),
            refs_v(out@) == apart(all.take(i as int), texts(groups@)),
        decreases items@.len() - i,
    {
        proof {
            assert(all.take(i as int + 1).drop_last() =~= all.take(i as int));
            assert(all.take(i as int + 1).last() == items@[i as int]@);
        }
        if !contains_text(groups, items[i].group_key.as_str()) {
            let ghost before = out@;
            let x = items[i].duplicate();
            out.push(x);
            assert(refs_v(out@) =~= refs_v(before).push(x@));
        }
        i = i + 1;
    }
    assert(all.take(i as int) =~= all);
    out
}

/// The groups that some items leave while others stay.
pub open spec fn mixed(left: Seq<Seq<char>>, ranked: Seq<Seq<char>>) -> Seq<Seq<char>>
    decreases left.len(),
{
    if left.len() == 0 {
        Seq::empty()
    } else if ranked.contains(left.last()) {
        mixed(left.drop_last(), ranked).push(left.last())
    } else {
        mixed(left.drop_last(), ranked)
    }
}

fn find_mixed(left: &Vec<String>, ranked: &Vec<String>) -> (r: Vec<String>)
    ensures
        texts(r@) == mixed(texts(left@), texts(ranked@)),
{
    let ghost all = texts(left@);
    let mut out: Vec<String> = Vec::new();
    let mut i: usize = 0;
    assert(all.take(0) =~= Seq::<Seq<char>>::empty());
    assert(texts(out@) =~= Seq::<Seq<char>>::empty());
    while i < left.len()
        invariant
            i <= left@.len(),
            all == texts(left@),
            texts(out@) == mixed(all.take(i as int), texts(ranked@)),
        decreases left@.len() - i,
    {
        proof {
            assert(all.take(i as int + 1).drop_last() =~= all.take(i as int));
            assert(all.take(i as int + 1).last() == left@[i as int]@);
        }
        if contains_text(ranked, left[i].as_str()) {
            let ghost before = out@;
            let x = left[i].clone();
            out.push(x);
            assert(texts(out@) =~= texts(before).push(x@));
        }
        i = i + 1;
    }
    assert(all.take(i as int) =~= all);
    out
}

/// The summaries of the groups follow a batch of updates.
pub open spec fn resummarizes(
    q: QueueV,
    ranked: Seq<RefV>,
    left: Seq<RefV>,
    since_changed: bool,
    now: i64,
) -> Script<Result<(), ErrorV>> {
    let both = mixed(groups_in(left), groups_in(ranked));
    chain(
        refreshes(q, both, now),
        |u: ()|
            chain(
                reranks(q, apart(ranked, both), since_changed, now),
                |v: ()| removes(q, apart(left, both), now),
            ),
    )
}

fn resummarize<T: RelTx>(
    tx: &mut RelSession<T>,
    shard: &QueueKey,
    ranked: &Vec<GroupItemRef>,
    left: &Vec<GroupItemRef>,
    since_changed: bool,
    now: UtcTimestamp,
) -> (r: EngineResult<()>)
    ensures
        held(
            old(tx).trace(),
            final(tx).trace(),
            resummarizes(shard@, refs_v(ranked@), refs_v(left@), since_changed, nanos(now)),
            outcome(r),
        ),
{
    proof {
        lemma_start(
            tx.trace(),
            resummarizes(shard@, refs_v(ranked@), refs_v(left@), since_changed, nanos(now)),
        );
    }
    let both = find_mixed(&unique_groups(left), &unique_groups(ranked));
    match refresh_group_summaries(tx, shard, &both, now) {
        Err(e) => return Err(e),
        Ok(_) => {},
    }
    match apply_group_summary_rerank(tx, shard, &set_apart(ranked, &both), since_changed, now) {
        Err(e) => return Err(e),
        Ok(_) => {},
    }
    apply_group_summary_remove(tx, shard, &set_apart(left, &both), now)
}

/// The rows of a batch are written.
pub open spec fn writes_rows(
    q: QueueV,
    rows: Seq<Seq<CellV>>,
    with_payload: bool,
    now: i64,
    seq: u64,
) -> Script<Result<(), ErrorV>> {
    let tail = Seq::<CellV>::empty().push(CellV::Integer(now)).push(
        CellV::Integer(seq as i64),
    ).push(CellV::Text(q.tenant_id)).push(CellV::Text(q.queue_id));
    if with_payload {
        rows_in(
            UPDATE_WITH_PAYLOAD@,
            ROW_WITH_PAYLOAD@,
            UPDATE_WITH_PAYLOAD_END@,
            rows,
            tail,
            UPDATE_FIELDS_BATCH as nat,
        )
    } else {
        rows_in(
            UPDATE_WITHOUT_PAYLOAD@,
            ROW_WITHOUT_PAYLOAD@,
            UPDATE_WITHOUT_PAYLOAD_END@,
            rows,
            tail,
            UPDATE_FIELDS_BATCH as nat,
        )
    }
}

fn write_rows<T: RelTx>(
    tx: &mut RelSession<T>,
    shard: &QueueKey,
    rows: &Vec<Params>,
    with_payload: bool,
    now_n: i64,
    seq: u64,
) -> (r: EngineResult<()>)
    ensures
        held(
            old(tx).trace(),
            final(tx).trace(),
            writes_rows(shard@, params_v(rows@), with_payload, now_n, seq),
            outcome(r),
        ),
{
    proof {
        lemma_start(
            tx.trace(),
            writes_rows(shard@, params_v(rows@), with_payload, now_n, seq),
        );
    }
    let tail = Params::new().number(now_n).number(seq as i64).text(shard.tenant_id.as_str()).text(
        shard.queue_id.as_str(),
    );
    if with_payload {
        run_rows(
            tx,
            UPDATE_WITH_PAYLOAD,
            ROW_WITH_PAYLOAD,
            UPDATE_WITH_PAYLOAD_END,
            rows,
            &tail,
            UPDATE_FIELDS_BATCH,
        )
    } else {
        run_rows(
            tx,
            UPDATE_WITHOUT_PAYLOAD,
            ROW_WITHOUT_PAYLOAD,
            UPDATE_WITHOUT_PAYLOAD_END,
            rows,
            &tail,
            UPDATE_FIELDS_BATCH,
        )
    }
}

/// The gates of updated items are replaced.
pub open spec fn regates_all(q: QueueV, updates: Seq<UpdateFieldsCommand>) -> Script<
    Result<(), ErrorV>,
> {
    chain(
        runs_in(DELETE_ITEM_GATES@, own(q), regated(updates), UPDATE_FIELDS_BATCH as nat),
        |u: ()|
            rows_in(
                INSERT_UPDATED_GATES@,
                GATE_ROW@,
                INSERT_UPDATED_GATES_END@,
                new_gates(updates).map_values(gate_cells(q)),
                Seq::empty(),
                UPDATE_FIELDS_BATCH as nat,
            ),
    )
}

fn regate_all<T: RelTx>(
    tx: &mut RelSession<T>,
    shard: &QueueKey,
    updates: &Vec<&UpdateFieldsCommand>,
) -> (r: EngineResult<()>)
    ensures
        held(
            old(tx).trace(),
            final(tx).trace(),
            regates_all(shard@, derefs(updates@)),
            outcome(r),
        ),
{
    proof {
        lemma_start(tx.trace(), regates_all(shard@, derefs(updates@)));
    }
    let (ids, pairs) = collect_gates(updates);
    match run_listed(tx, DELETE_ITEM_GATES, &own_params(shard), &ids, UPDATE_FIELDS_BATCH) {
        Err(e) => return Err(e),
        Ok(_) => {},
    }
    let rows = pair_params(shard, &pairs);
    run_rows(
        tx,
        INSERT_UPDATED_GATES,
        GATE_ROW,
        INSERT_UPDATED_GATES_END,
        &rows,
        &Params::new(),
        UPDATE_FIELDS_BATCH,
    )
}

/// The live items that the updates are for, as they stand. The payload is read only where some
/// updates replace it and others keep it.
pub open spec fn asks_live(q: QueueV, ids: Seq<Seq<char>>, with_payload: bool) -> Script<
    Result<Seq<LiveRowV>, ErrorV>,
> {
    if with_payload {
        reads_in::<LiveRow>(
            SELECT_LIVE_WITH_PAYLOAD@,
            LIVE_ONLY@,
            own(q),
            ids,
            UPDATE_FIELDS_BATCH as nat,
        )
    } else {
        reads_in::<BareRow>(
            SELECT_LIVE_WITHOUT_PAYLOAD@,
            LIVE_ONLY@,
            own(q),
            ids,
            UPDATE_FIELDS_BATCH as nat,
        )
    }
}

fn load_live<T: RelTx>(
    tx: &mut RelSession<T>,
    shard: &QueueKey,
    ids: &Vec<String>,
    with_payload: bool,
) -> (r: EngineResult<Vec<LiveRow>>)
    ensures
        held(
            old(tx).trace(),
            final(tx).trace(),
            asks_live(shard@, texts(ids@), with_payload),
            contents_outcome(r),
        ),
{
    proof {
        lemma_start(tx.trace(), asks_live(shard@, texts(ids@), with_payload));
    }
    if with_payload {
        query_listed::<T, LiveRow>(
            tx,
            SELECT_LIVE_WITH_PAYLOAD,
            LIVE_ONLY,
            &own_params(shard),
            ids,
            UPDATE_FIELDS_BATCH,
        )
    } else {
        match query_listed::<T, BareRow>(
            tx,
            SELECT_LIVE_WITHOUT_PAYLOAD,
            LIVE_ONLY,
            &own_params(shard),
            ids,
            UPDATE_FIELDS_BATCH,
        ) {
            Err(e) => Err(e),
            Ok(rows) => Ok(unwrap_bare(rows)),
        }
    }
}

/// What follows the read of the items: they are staged and written, with their gates, and the
/// summaries of their groups follow.
pub open spec fn writes_batch(
    grouped: bool,
    q: QueueV,
    model: PriorityModel,
    seq: u64,
    now: i64,
    updates: Seq<UpdateFieldsCommand>,
    resolved: Seq<(Seq<char>, Seq<char>)>,
    rows: Seq<LiveRowV>,
) -> Script<Result<(), ErrorV>> {
    chain(
        stages_all(updates, rows, resolved, model, some_payload(updates), now),
        |s: Staging|
            chain(
                writes_rows(q, s.rows, some_payload(updates), now, seq),
                |u: ()|
                    chain(
                        regates_all(q, updates),
                        |v: ()|
                            if some_reschedules(updates) && grouped {
                                resummarizes(q, s.ranked, s.left, some_since(updates), now)
                            } else {
                                Script::Done(Ok::<(), ErrorV>(()))
                            },
                    ),
            ),
    )
}

fn write_batch<T: RelTx + RelCodec>(
    tx: &mut RelSession<T>,
    grouped: bool,
    shard: &QueueKey,
    model: &PriorityModel,
    seq: u64,
    now: UtcTimestamp,
    updates: &Vec<&UpdateFieldsCommand>,
    resolved: &Vec<KeyRow>,
    rows: &Vec<LiveRow>,
) -> (r: EngineResult<()>)
    ensures
        held(
            old(tx).trace(),
            final(tx).trace(),
            writes_batch(
                grouped,
                shard@,
                *model,
                seq,
                nanos(now),
                derefs(updates@),
                contents(resolved@),
                contents(rows@),
            ),
            outcome(r),
        ),
{
    proof {
        lemma_start(
            tx.trace(),
            writes_batch(
                grouped,
                shard@,
                *model,
                seq,
                nanos(now),
                derefs(updates@),
                contents(resolved@),
                contents(rows@),
            ),
        );
    }
    let t = traits_of(updates);
    let now_n = ts_nanos(now);
    let s = match stage_all(tx, updates, rows, resolved, model, t.payload, now_n) {
        Err(e) => return Err(e),
        Ok(s) => s,
    };
    match write_rows(tx, shard, &s.rows, t.payload, now_n, seq) {
        Err(e) => return Err(e),
        Ok(_) => {},
    }
    match regate_all(tx, shard, updates) {
        Err(e) => return Err(e),
        Ok(_) => {},
    }
    if t.reschedules && grouped {
        resummarize(tx, shard, &s.ranked, &s.left, t.since, now)
    } else {
        Ok(())
    }
}

/// Many whole updates in few statements.
pub open spec fn updates_whole(
    m: MemoryV,
    queues: Map<QueueV, QueueDefinition>,
    q: QueueV,
    seq: u64,
    now: i64,
    updates: Seq<UpdateFieldsCommand>,
) -> Script<Kept<()>> {
    if !queues.contains_key(q) {
        Script::Done((m, Err(ErrorV::NotFound)))
    } else {
        let n = if some_reschedules(updates) {
            hint_reset(m, q)
        } else {
            m
        };
        hold(
            n,
            reads_in::<KeyRow>(
                SELECT_BY_CLIENT_KEY@,
                NOT_SUPERSEDED@,
                own(q),
                open_keys(updates),
                UPDATE_FIELDS_BATCH as nat,
            ),
            |resolved: Seq<(Seq<char>, Seq<char>)>|
                hold(
                    n,
                    asks_live(
                        q,
                        aims(updates, resolved),
                        some_payload(updates) && some_kept_payload(updates),
                    ),
                    |rows: Seq<LiveRowV>|
                        hold(
                            n,
                            writes_batch(
                                n.grouped.contains(q),
                                q,
                                queues[q].priority_model,
                                seq,
                                now,
                                updates,
                                resolved,
                                rows,
                            ),
                            |u: ()| Script::Done((n, Ok::<(), ErrorV>(()))),
                        ),
                ),
        )
    }
}

fn apply_whole_updates<T: RelTx + RelCodec>(
    tx: &mut RelSession<T>,
    queues: &Queues,
    memory: &mut DriverMemory,
    shard: &QueueKey,
    seq: u64,
    now: UtcTimestamp,
    updates: &Vec<&UpdateFieldsCommand>,
) -> (r: EngineResult<()>)
    ensures
        held(
            old(tx).trace(),
            final(tx).trace(),
            updates_whole(old(memory)@, queues@, shard@, seq, nanos(now), derefs(updates@)),
            (final(memory)@, outcome(r)),
        ),
{
    proof {
        lemma_start(
            tx.trace(),
            updates_whole(memory@, queues@, shard@, seq, nanos(now), derefs(updates@)),
        );
    }
    let model = match queues.get(shard) {
        None => return Err(EngineError::NotFound),
        Some(d) => d.priority_model,
    };
    let t = traits_of(updates);
    if t.reschedules {
        reset_claim_scan_hint(memory, shard);
    }
    let keys = collect_open_keys(updates);
    let resolved = match query_listed::<T, KeyRow>(
        tx,
        SELECT_BY_CLIENT_KEY,
        NOT_SUPERSEDED,
        &own_params(shard),
        &keys,
        UPDATE_FIELDS_BATCH,
    ) {
        Err(e) => return Err(e),
        Ok(v) => v,
    };
    let ids = collect_aims(updates, &resolved);
    let rows = match load_live(tx, shard, &ids, t.payload && t.kept_payload) {
        Err(e) => return Err(e),
        Ok(v) => v,
    };
    let grouped = memory.grouped_shards.contains(shard);
    write_batch(tx, grouped, shard, &model, seq, now, updates, &resolved, &rows)
}

pub open spec fn update_step(
    queues: Map<QueueV, QueueDefinition>,
    q: QueueV,
    seq: u64,
    now: i64,
) -> spec_fn(MemoryV, UpdateFieldsCommand) -> Script<Kept<()>> {
    |m: MemoryV, c: UpdateFieldsCommand| updates(m, queues, q, seq, now, c)
}

/// A batch of updates: at once where each only replaces whole values, else one after the other.
pub open spec fn updates_batch(
    m: MemoryV,
    queues: Map<QueueV, QueueDefinition>,
    q: QueueV,
    seq: u64,
    now: i64,
    list: Seq<UpdateFieldsCommand>,
) -> Script<Kept<()>> {
    if list.len() == 0 {
        Script::Done((m, Ok(())))
    } else if !all_whole(list) {
        each_kept(m, list, update_step(queues, q, seq, now))
    } else {
        updates_whole(m, queues, q, seq, now, list)
    }
}

fn apply_each_update<T: RelTx + RelCodec>(
    tx: &mut RelSession<T>,
    queues: &Queues,
    memory: &mut DriverMemory,
    shard: &QueueKey,
    seq: u64,
    now: UtcTimestamp,
    updates: &Vec<&UpdateFieldsCommand>,
) -> (r: EngineResult<()>)
    ensures
        held(
            old(tx).trace(),
            final(tx).trace(),
            each_kept(old(memory)@, derefs(updates@), update_step(queues@, shard@, seq, nanos(now))),
            (final(memory)@, outcome(r)),
        ),
{
    let ghost all = derefs(updates@);
    let ghost f = update_step(queues@, shard@, seq, nanos(now));
    let ghost m = memory@;
    let ghost prog = each_kept(m, all, f);
    let ghost start = tx.trace();
    let mut i: usize = 0;
    proof {
        lemma_start(start, prog);
        assert(all.skip(0) =~= all);
    }
    while i < updates.len()
        invariant
            i <= derefs(updates@).len(),
            all == derefs(updates@),
            start == old(tx).trace(),
            m == old(memory)@,
            f == update_step(queues@, shard@, seq, nanos(now)),
            prog == each_kept(m, all, f),
            reached(start, tx.trace(), prog, each_kept(memory@, all.skip(i as int), f)),
        decreases derefs(updates@).len() - i,
    {
        proof {
            assert(all.skip(i as int)[0] == derefs(updates@)[i as int]);
            assert(all.skip(i as int).drop_first() =~= all.skip(i as int + 1));
        }
        match apply_update_fields_sql(tx, queues, memory, shard, seq, now, updates[i]) {
            Err(e) => return Err(e),
            Ok(_) => {},
        }
        i = i + 1;
    }
    assert(all.skip(i as int) =~= Seq::<UpdateFieldsCommand>::empty());
    Ok(())
}

/// Changes the values of many live items.
pub fn apply_update_fields_batch_sql<T: RelTx + RelCodec>(
    tx: &mut RelSession<T>,
    queues: &Queues,
    memory: &mut DriverMemory,
    shard: &QueueKey,
    seq: u64,
    now: UtcTimestamp,
    updates: &Vec<&UpdateFieldsCommand>,
) -> (r: EngineResult<()>)
    ensures
        held(
            old(tx).trace(),
            final(tx).trace(),
            updates_batch(old(memory)@, queues@, shard@, seq, nanos(now), derefs(updates@)),
            (final(memory)@, outcome(r)),
        ),
{
    proof {
        lemma_start(
            tx.trace(),
            updates_batch(memory@, queues@, shard@, seq, nanos(now), derefs(updates@)),
        );
    }
    if updates.len() == 0 {
        return Ok(());
    }
    if !are_whole(updates) {
        return apply_each_update(tx, queues, memory, shard, seq, now, updates);
    }
    apply_whole_updates(tx, queues, memory, shard, seq, now, updates)
}

} // verus!
