//! Summaries of groups: how many items of a group may be claimed, since when, and which comes first.

use crate::order::{Standing, bytes_lt, bytes_standing, lemma_bytes_lt_irreflexive, lemma_bytes_lt_transitive};
use crate::relational::codec::{id_strings, id_texts, nanos, ts_nanos, wrap_sum, wrapped_sum};
use crate::relational::exec::{RelSession, RelTx};
use crate::relational::lists::{FromRow, TextRow, contents, contents_outcome, params_v, query_listed, reads_in, rows_in, run_rows};
use crate::relational::query::{RELATIONAL_BATCH, asks_gates, has_blocked_gates, own, own_params};
use crate::relational::script::{Script, chain, group_talk, held, lemma_start};
use crate::relational::value::{CellV, Params, RelRow, blob_cell, bytes_opt, column, int_cell, text_cell};
use crate::text::{clone_bytes, clone_opt_text, contains_text, opt_text, same_text, texts};
use crate::types::{EngineResult, ErrorV, ItemId, QueueKey, QueueV, UtcTimestamp, outcome};
use vstd::prelude::*;
use vstd::string::*;

verus! {

broadcast use group_talk;

/// The most summaries that one statement writes.
pub const SUMMARY_UPSERT_BATCH: usize = 50;

pub const GROUP_DUE_REFRESH_LIMIT: i64 = 128;

pub const GATE_ANTI_JOIN: &'static str = " AND NOT EXISTS (SELECT 1 FROM fireweed_item_gates ig \
     JOIN fireweed_gate_state gs ON gs.tenant_id=ig.tenant_id AND gs.queue_id=ig.queue_id \
     AND gs.gate_key=ig.gate_key WHERE ig.tenant_id=fireweed_items.tenant_id \
     AND ig.queue_id=fireweed_items.queue_id AND ig.item_id=fireweed_items.item_id)";

pub const SELECT_GROUPED_ITEMS: &'static str = "SELECT group_key,item_id,eligible_since,priority_sort,created_at,created_seq,not_before \
             FROM fireweed_items WHERE tenant_id=? AND queue_id=? AND item_id IN";

pub const GROUPED_ONLY: &'static str = " AND group_key IS NOT NULL";

pub const SELECT_GROUPS: &'static str = "SELECT DISTINCT group_key FROM fireweed_items WHERE tenant_id=? AND queue_id=? \
             AND item_id IN";

pub const SELECT_SUMMARIES: &'static str = "SELECT s.group_key,s.oldest_eligible_at,s.rep_priority_sort,s.rep_created_at,\
                    s.rep_item_id,s.eligible_item_count,i.created_seq \
             FROM fireweed_group_summary s \
             LEFT JOIN fireweed_items i ON i.tenant_id=s.tenant_id AND i.queue_id=s.queue_id \
               AND i.item_id=s.rep_item_id \
             WHERE s.tenant_id=? AND s.queue_id=? AND s.group_key IN";

pub const UPSERT_SUMMARIES: &'static str = "INSERT INTO fireweed_group_summary \
             (tenant_id,queue_id,group_key,oldest_eligible_at,rep_progress_guard_sort,rep_priority_sort,\
              rep_created_at,rep_item_id,eligible_item_count,at_risk_count,updated_at) \
             VALUES ";

pub const SUMMARY_ROW: &'static str = "(?,?,?,?,NULL,?,?,?,?,0,?)";

pub const UPSERT_SUMMARIES_END: &'static str = " \
             ON CONFLICT(tenant_id,queue_id,group_key) DO UPDATE SET \
              oldest_eligible_at=excluded.oldest_eligible_at, \
              rep_progress_guard_sort=excluded.rep_progress_guard_sort, \
              rep_priority_sort=excluded.rep_priority_sort, \
              rep_created_at=excluded.rep_created_at, \
              rep_item_id=excluded.rep_item_id, \
              eligible_item_count=excluded.eligible_item_count, \
              at_risk_count=excluded.at_risk_count, \
              updated_at=excluded.updated_at";

pub const SELECT_ELIGIBLE_OF_GROUPS: &'static str = "SELECT group_key,item_id,eligible_since,priority_sort,created_at,created_seq \
             FROM fireweed_items WHERE tenant_id=? AND queue_id=? \
             AND lifecycle_state='Pending' AND superseded=0 \
             AND (not_before IS NULL OR not_before<=?) \
             AND group_key IN";

pub const SELECT_HEADS: &'static str = "SELECT group_key,item_id,priority_sort,created_at,eligible_since,cnt,oldest FROM (\
               SELECT group_key,item_id,priority_sort,created_at,eligible_since,\
                 ROW_NUMBER() OVER (PARTITION BY group_key ORDER BY priority_sort,created_seq) AS rn,\
                 COUNT(*) OVER (PARTITION BY group_key) AS cnt,\
                 MIN(eligible_since) OVER (PARTITION BY group_key) AS oldest \
               FROM fireweed_items WHERE tenant_id=? AND queue_id=? \
                 AND lifecycle_state='Pending' AND superseded=0 \
                 AND (not_before IS NULL OR not_before<=?) \
                 AND group_key IN";

pub const SELECT_HEADS_END: &'static str = ") WHERE rn=1";

/// A grouped item that may be claimed.
pub struct GroupItemRef {
    pub group_key: String,
    pub item_id: String,
    pub eligible_since: i64,
    pub priority_sort: Vec<u8>,
    pub created_at: i64,
    pub created_seq: i64,
}

pub ghost struct RefV {
    pub group_key: Seq<char>,
    pub item_id: Seq<char>,
    pub eligible_since: i64,
    pub priority_sort: Seq<u8>,
    pub created_at: i64,
    pub created_seq: i64,
}

impl GroupItemRef {
    pub open spec fn view(&self) -> RefV {
        RefV {
            group_key: self.group_key@,
            item_id: self.item_id@,
            eligible_since: self.eligible_since,
            priority_sort: self.priority_sort@,
            created_at: self.created_at,
            created_seq: self.created_seq,
        }
    }

    pub fn duplicate(&self) -> (r: GroupItemRef)
        ensures
            r@ == self@,
    {
        GroupItemRef {
            group_key: self.group_key.clone(),
            item_id: self.item_id.clone(),
            eligible_since: self.eligible_since,
            priority_sort: clone_bytes(&self.priority_sort),
            created_at: self.created_at,
            created_seq: self.created_seq,
        }
    }
}

pub open spec fn refs_v(items: Seq<GroupItemRef>) -> Seq<RefV> {
    items.map_values(|i: GroupItemRef| i@)
}

/// The columns of a grouped item after its group.
pub open spec fn ref_of(group: Seq<char>, row: Seq<CellV>) -> Result<RefV, ErrorV> {
    match column::<String>(row, 1) {
        Err(e) => Err(e),
        Ok(item_id) => match column::<i64>(row, 2) {
            Err(e) => Err(e),
            Ok(eligible_since) => match column::<Vec<u8>>(row, 3) {
                Err(e) => Err(e),
                Ok(priority_sort) => match column::<i64>(row, 4) {
                    Err(e) => Err(e),
                    Ok(created_at) => match column::<i64>(row, 5) {
                        Err(e) => Err(e),
                        Ok(created_seq) => Ok(
                            RefV {
                                group_key: group,
                                item_id,
                                eligible_since,
                                priority_sort,
                                created_at,
                                created_seq,
                            },
                        ),
                    },
                },
            },
        },
    }
}

fn read_ref(group_key: String, row: &RelRow) -> (r: EngineResult<GroupItemRef>)
    ensures
        (match r {
            Ok(x) => Ok(x@),
            Err(e) => Err(e@),
        }) == ref_of(group_key@, row@),
{
    let item_id = match row.get::<String>(1) {
        Err(e) => return Err(e),
        Ok(v) => v,
    };
    let eligible_since = match row.get::<i64>(2) {
        Err(e) => return Err(e),
        Ok(v) => v,
    };
    let priority_sort = match row.get::<Vec<u8>>(3) {
        Err(e) => return Err(e),
        Ok(v) => v,
    };
    let created_at = match row.get::<i64>(4) {
        Err(e) => return Err(e),
        Ok(v) => v,
    };
    let created_seq = match row.get::<i64>(5) {
        Err(e) => return Err(e),
        Ok(v) => v,
    };
    Ok(GroupItemRef { group_key, item_id, eligible_since, priority_sort, created_at, created_seq })
}

impl FromRow for GroupItemRef {
    type V = RefV;

    open spec fn content(&self) -> RefV {
        self@
    }

    open spec fn row_reading(row: Seq<CellV>) -> Result<RefV, ErrorV> {
        match column::<String>(row, 0) {
            Err(e) => Err(e),
            Ok(group) => ref_of(group, row),
        }
    }

    fn from_row(row: &RelRow) -> (r: EngineResult<GroupItemRef>) {
        match row.get::<String>(0) {
            Err(e) => Err(e),
            Ok(group) => read_ref(group, row),
        }
    }
}

/// A row that may name no group.
pub struct MaybeGrouped(pub Option<GroupItemRef>);

impl FromRow for MaybeGrouped {
    type V = Option<RefV>;

    open spec fn content(&self) -> Option<RefV> {
        match self.0 {
            Some(x) => Some(x@),
            None => None,
        }
    }

    open spec fn row_reading(row: Seq<CellV>) -> Result<Option<RefV>, ErrorV> {
        match column::<Option<String>>(row, 0) {
            Err(e) => Err(e),
            Ok(None) => Ok(None),
            Ok(Some(group)) => match ref_of(group, row) {
                Err(e) => Err(e),
                Ok(x) => Ok(Some(x)),
            },
        }
    }

    fn from_row(row: &RelRow) -> (r: EngineResult<MaybeGrouped>) {
        match row.get::<Option<String>>(0) {
            Err(e) => Err(e),
            Ok(None) => Ok(MaybeGrouped(None)),
            Ok(Some(group)) => match read_ref(group, row) {
                Err(e) => Err(e),
                Ok(x) => Ok(MaybeGrouped(Some(x))),
            },
        }
    }
}

/// A stored summary.
pub struct LoadedSummary {
    pub group_key: String,
    pub oldest: Option<i64>,
    pub rep_priority_sort: Option<Vec<u8>>,
    pub rep_created_at: Option<i64>,
    pub rep_item_id: Option<String>,
    pub rep_created_seq: Option<i64>,
    pub count: i64,
}

pub ghost struct LoadedV {
    pub group_key: Seq<char>,
    pub oldest: Option<i64>,
    pub rep_priority_sort: Option<Seq<u8>>,
    pub rep_created_at: Option<i64>,
    pub rep_item_id: Option<Seq<char>>,
    pub rep_created_seq: Option<i64>,
    pub count: i64,
}

impl LoadedSummary {
    pub open spec fn view(&self) -> LoadedV {
        LoadedV {
            group_key: self.group_key@,
            oldest: self.oldest,
            rep_priority_sort: bytes_opt(self.rep_priority_sort),
            rep_created_at: self.rep_created_at,
            rep_item_id: opt_text(self.rep_item_id),
            rep_created_seq: self.rep_created_seq,
            count: self.count,
        }
    }
}

pub open spec fn loaded_row(group_key: Seq<char>, row: Seq<CellV>) -> Result<LoadedV, ErrorV> {
    match column::<Option<i64>>(row, 1) {
        Err(e) => Err(e),
        Ok(oldest) => match column::<Option<Vec<u8>>>(row, 2) {
            Err(e) => Err(e),
            Ok(rep_priority_sort) => match column::<Option<i64>>(row, 3) {
                Err(e) => Err(e),
                Ok(rep_created_at) => match column::<Option<String>>(row, 4) {
                    Err(e) => Err(e),
                    Ok(rep_item_id) => match column::<i64>(row, 5) {
                        Err(e) => Err(e),
                        Ok(count) => match column::<Option<i64>>(row, 6) {
                            Err(e) => Err(e),
                            Ok(rep_created_seq) => Ok(
                                LoadedV {
                                    group_key,
                                    oldest,
                                    rep_priority_sort,
                                    rep_created_at,
                                    rep_item_id,
                                    rep_created_seq,
                                    count,
                                },
                            ),
                        },
                    },
                },
            },
        },
    }
}

impl FromRow for LoadedSummary {
    type V = LoadedV;

    open spec fn content(&self) -> LoadedV {
        self@
    }

    open spec fn row_reading(row: Seq<CellV>) -> Result<LoadedV, ErrorV> {
        match column::<String>(row, 0) {
            Err(e) => Err(e),
            Ok(group) => loaded_row(group, row),
        }
    }

    fn from_row(row: &RelRow) -> (r: EngineResult<LoadedSummary>) {
        let group_key = match row.get::<String>(0) {
            Err(e) => return Err(e),
            Ok(v) => v,
        };
        let oldest = match row.get::<Option<i64>>(1) {
            Err(e) => return Err(e),
            Ok(v) => v,
        };
        let rep_priority_sort = match row.get::<Option<Vec<u8>>>(2) {
            Err(e) => return Err(e),
            Ok(v) => v,
        };
        let rep_created_at = match row.get::<Option<i64>>(3) {
            Err(e) => return Err(e),
            Ok(v) => v,
        };
        let rep_item_id = match row.get::<Option<String>>(4) {
            Err(e) => return Err(e),
            Ok(v) => v,
        };
        let count = match row.get::<i64>(5) {
            Err(e) => return Err(e),
            Ok(v) => v,
        };
        let rep_created_seq = match row.get::<Option<i64>>(6) {
            Err(e) => return Err(e),
            Ok(v) => v,
        };
        Ok(
            LoadedSummary {
                group_key,
                oldest,
                rep_priority_sort,
                rep_created_at,
                rep_item_id,
                rep_created_seq,
                count,
            },
        )
    }
}

/// A summary to be stored.
pub struct SummaryWrite {
    pub group_key: String,
    pub oldest: Option<i64>,
    pub rep_priority_sort: Option<Vec<u8>>,
    pub rep_created_at: Option<i64>,
    pub rep_item_id: Option<String>,
    pub count: i64,
}

pub ghost struct WriteV {
    pub group_key: Seq<char>,
    pub oldest: Option<i64>,
    pub rep_priority_sort: Option<Seq<u8>>,
    pub rep_created_at: Option<i64>,
    pub rep_item_id: Option<Seq<char>>,
    pub count: i64,
}

impl SummaryWrite {
    pub open spec fn view(&self) -> WriteV {
        WriteV {
            group_key: self.group_key@,
            oldest: self.oldest,
            rep_priority_sort: bytes_opt(self.rep_priority_sort),
            rep_created_at: self.rep_created_at,
            rep_item_id: opt_text(self.rep_item_id),
            count: self.count,
        }
    }
}

pub open spec fn writes_v(w: Seq<SummaryWrite>) -> Seq<WriteV> {
    w.map_values(|x: SummaryWrite| x@)
}

impl FromRow for SummaryWrite {
    type V = WriteV;

    open spec fn content(&self) -> WriteV {
        self@
    }

    /// The head of a group as the store computed it.
    open spec fn row_reading(row: Seq<CellV>) -> Result<WriteV, ErrorV> {
        match column::<String>(row, 0) {
            Err(e) => Err(e),
            Ok(group_key) => match column::<Option<i64>>(row, 6) {
                Err(e) => Err(e),
                Ok(oldest) => match column::<Vec<u8>>(row, 2) {
                    Err(e) => Err(e),
                    Ok(sort) => match column::<Option<i64>>(row, 3) {
                        Err(e) => Err(e),
                        Ok(rep_created_at) => match column::<String>(row, 1) {
                            Err(e) => Err(e),
                            Ok(item) => match column::<i64>(row, 5) {
                                Err(e) => Err(e),
                                Ok(count) => Ok(
                                    WriteV {
                                        group_key,
                                        oldest,
                                        rep_priority_sort: Some(sort),
                                        rep_created_at,
                                        rep_item_id: Some(item),
                                        count,
                                    },
                                ),
                            },
                        },
                    },
                },
            },
        }
    }

    fn from_row(row: &RelRow) -> (r: EngineResult<SummaryWrite>) {
        let group_key = match row.get::<String>(0) {
            Err(e) => return Err(e),
            Ok(v) => v,
        };
        let oldest = match row.get::<Option<i64>>(6) {
            Err(e) => return Err(e),
            Ok(v) => v,
        };
        let sort = match row.get::<Vec<u8>>(2) {
            Err(e) => return Err(e),
            Ok(v) => v,
        };
        let rep_created_at = match row.get::<Option<i64>>(3) {
            Err(e) => return Err(e),
            Ok(v) => v,
        };
        let item = match row.get::<String>(1) {
            Err(e) => return Err(e),
            Ok(v) => v,
        };
        let count = match row.get::<i64>(5) {
            Err(e) => return Err(e),
            Ok(v) => v,
        };
        Ok(
            SummaryWrite {
                group_key,
                oldest,
                rep_priority_sort: Some(sort),
                rep_created_at,
                rep_item_id: Some(item),
                count,
            },
        )
    }
}

/// The groups of items, each once, as they first occur.
pub open spec fn groups_in(items: Seq<RefV>) -> Seq<Seq<char>>
    decreases items.len(),
{
    if items.len() == 0 {
        Seq::empty()
    } else {
        with_group(groups_in(items.drop_last()), items.last().group_key)
    }
}

/// A list with one more text, unless it holds it.
pub open spec fn with_group(groups: Seq<Seq<char>>, g: Seq<char>) -> Seq<Seq<char>> {
    if groups.contains(g) {
        groups
    } else {
        groups.push(g)
    }
}

/// Adds a text to a list, unless the list holds it.
pub fn add_group(groups: &mut Vec<String>, g: &str)
    ensures
        texts(final(groups)@) == with_group(texts(old(groups)@), g@),
{
    if !contains_text(groups, g) {
        let ghost before = groups@;
        groups.push(g.to_owned());
        assert(texts(groups@) =~= texts(before).push(g@));
    }
}

pub fn unique_groups(items: &Vec<GroupItemRef>) -> (r: Vec<String>)
    ensures
        texts(r@) == groups_in(refs_v(items@)),
{
    let ghost all = refs_v(items@);
    let mut out: Vec<String> = Vec::new();
    let mut i: usize = 0;
    assert(all.take(0) =~= Seq::<RefV>::empty());
    assert(texts(out@) =~= Seq::<Seq<char>>::empty());
    while i < items.len()
        invariant
            i <= items@.len(),
            all == refs_v(items@),
            texts(out@) == groups_in(all.take(i as int)),
        decreases items@.len() - i,
    {
        proof {
            assert(all.take(i as int + 1).drop_last() =~= all.take(i as int));
            assert(all.take(i as int + 1).last() == items@[i as int]@);
        }
        add_group(&mut out, items[i].group_key.as_str());
        i = i + 1;
    }
    assert(all.take(i as int) =~= all);
    out
}

/// The item comes before a place in claim order.
pub open spec fn beats(i: RefV, sort: Seq<u8>, seq: i64) -> bool {
    bytes_lt(i.priority_sort, sort) || (i.priority_sort == sort && i.created_seq < seq)
}

pub fn item_beats(item: &GroupItemRef, sort: &Vec<u8>, created_seq: i64) -> (r: bool)
    ensures
        r == beats(item@, sort@, created_seq),
{
    proof {
        lemma_bytes_lt_irreflexive(sort@);
    }
    match bytes_standing(item.priority_sort.as_slice(), sort.as_slice()) {
        Standing::Below => true,
        Standing::Same => item.created_seq < created_seq,
        Standing::Above => false,
    }
}

/// The first item in claim order.
pub open spec fn head_of(items: Seq<RefV>) -> Option<RefV>
    decreases items.len(),
{
    if items.len() == 0 {
        None
    } else {
        match head_of(items.drop_last()) {
            None => Some(items.last()),
            Some(h) => if beats(items.last(), h.priority_sort, h.created_seq) {
                Some(items.last())
            } else {
                Some(h)
            },
        }
    }
}

pub fn best_item(items: &Vec<GroupItemRef>) -> (r: Option<&GroupItemRef>)
    ensures
        match r {
            Some(x) => head_of(refs_v(items@)) == Some(x@),
            None => head_of(refs_v(items@)) is None,
        },
{
    let ghost all = refs_v(items@);
    let mut best: Option<&GroupItemRef> = None;
    let mut i: usize = 0;
    assert(all.take(0) =~= Seq::<RefV>::empty());
    while i < items.len()
        invariant
            i <= items@.len(),
            all == refs_v(items@),
            match best {
                Some(x) => head_of(all.take(i as int)) == Some(x@),
                None => head_of(all.take(i as int)) is None,
            },
        decreases items@.len() - i,
    {
        proof {
            assert(all.take(i as int + 1).drop_last() =~= all.take(i as int));
            assert(all.take(i as int + 1).last() == items@[i as int]@);
        }
        match best {
            None => {
                best = Some(&items[i]);
            },
            Some(h) => {
                if item_beats(&items[i], &h.priority_sort, h.created_seq) {
                    best = Some(&items[i]);
                }
            },
        }
        i = i + 1;
    }
    assert(all.take(i as int) =~= all);
    best
}

/// Since when the first of the items may be claimed.
pub open spec fn oldest_of(items: Seq<RefV>) -> Option<i64>
    decreases items.len(),
{
    if items.len() == 0 {
        None
    } else {
        earlier(oldest_of(items.drop_last()), Some(items.last().eligible_since))
    }
}

pub open spec fn earlier(a: Option<i64>, b: Option<i64>) -> Option<i64> {
    match (a, b) {
        (Some(x), Some(y)) => Some(
            if y < x {
                y
            } else {
                x
            },
        ),
        (Some(x), None) => Some(x),
        (None, y) => y,
    }
}

fn earlier_of(a: Option<i64>, b: Option<i64>) -> (r: Option<i64>)
    ensures
        r == earlier(a, b),
{
    match (a, b) {
        (Some(x), Some(y)) => Some(
            if y < x {
                y
            } else {
                x
            },
        ),
        (Some(x), None) => Some(x),
        (None, y) => y,
    }
}

fn oldest_item(items: &Vec<GroupItemRef>) -> (r: Option<i64>)
    ensures
        r == oldest_of(refs_v(items@)),
{
    let ghost all = refs_v(items@);
    let mut oldest: Option<i64> = None;
    let mut i: usize = 0;
    assert(all.take(0) =~= Seq::<RefV>::empty());
    while i < items.len()
        invariant
            i <= items@.len(),
            all == refs_v(items@),
            oldest == oldest_of(all.take(i as int)),
        decreases items@.len() - i,
    {
        proof {
            assert(all.take(i as int + 1).drop_last() =~= all.take(i as int));
            assert(all.take(i as int + 1).last() == items@[i as int]@);
        }
        oldest = earlier_of(oldest, Some(items[i].eligible_since));
        i = i + 1;
    }
    assert(all.take(i as int) =~= all);
    oldest
}

/// The summary of a group that holds just these items.
pub open spec fn summary_of(group: Seq<char>, items: Seq<RefV>) -> WriteV {
    let h = head_of(items);
    WriteV {
        group_key: group,
        oldest: oldest_of(items),
        rep_priority_sort: match h {
            Some(i) => Some(i.priority_sort),
            None => None,
        },
        rep_created_at: match h {
            Some(i) => Some(i.created_at),
            None => None,
        },
        rep_item_id: match h {
            Some(i) => Some(i.item_id),
            None => None,
        },
        count: items.len() as i64,
    }
}

pub fn write_from_items(group: &str, items: &Vec<GroupItemRef>) -> (r: SummaryWrite)
    ensures
        r@ == summary_of(group@, refs_v(items@)),
{
    let oldest = oldest_item(items);
    let count = items.len() as i64;
    match best_item(items) {
        Some(i) => SummaryWrite {
            group_key: group.to_owned(),
            oldest,
            rep_priority_sort: Some(clone_bytes(&i.priority_sort)),
            rep_created_at: Some(i.created_at),
            rep_item_id: Some(i.item_id.clone()),
            count,
        },
        None => SummaryWrite {
            group_key: group.to_owned(),
            oldest,
            rep_priority_sort: None,
            rep_created_at: None,
            rep_item_id: None,
            count,
        },
    }
}

/// The items of one group, in order.
pub open spec fn of_group(items: Seq<RefV>, group: Seq<char>) -> Seq<RefV>
    decreases items.len(),
{
    if items.len() == 0 {
        Seq::empty()
    } else if items.last().group_key == group {
        of_group(items.drop_last(), group).push(items.last())
    } else {
        of_group(items.drop_last(), group)
    }
}

pub fn items_of_group(items: &Vec<GroupItemRef>, group: &str) -> (r: Vec<GroupItemRef>)
    ensures
        refs_v(r@) == of_group(refs_v(items@), group@),
{
    let ghost all = refs_v(items@);
    let mut out: Vec<GroupItemRef> = Vec::new();
    let mut i: usize = 0;
    assert(all.take(0) =~= Seq::<RefV>::empty());
    assert(refs_v(out@) =~= Seq::<RefV>::empty());
    while i < items.len()
        invariant
            i <= items@.len(),
            all == refs_v(items@),
            refs_v(out@) == of_group(all.take(i as int), group@),
        decreases items@.len() - i,
    {
        proof {
            assert(all.take(i as int + 1).drop_last() =~= all.take(i as int));
            assert(all.take(i as int + 1).last() == items@[i as int]@);
        }
        if same_text(items[i].group_key.as_str(), group) {
            let ghost before = out@;
            let x = items[i].duplicate();
            out.push(x);
            assert(refs_v(out@) =~= refs_v(before).push(x@));
        }
        i = i + 1;
    }
    assert(all.take(i as int) =~= all);
    out
}

/// The members of a list of maybe-grouped items that have a group.
pub open spec fn present(items: Seq<Option<RefV>>) -> Seq<RefV>
    decreases items.len(),
{
    if items.len() == 0 {
        Seq::empty()
    } else {
        match items.last() {
            Some(x) => present(items.drop_last()).push(x),
            None => present(items.drop_last()),
        }
    }
}

fn keep_present(items: Vec<MaybeGrouped>) -> (r: Vec<GroupItemRef>)
    ensures
        refs_v(r@) == present(contents(items@)),
{
    let ghost all = contents(items@);
    let mut out: Vec<GroupItemRef> = Vec::new();
    let mut i: usize = 0;
    assert(all.take(0) =~= Seq::<Option<RefV>>::empty());
    assert(refs_v(out@) =~= Seq::<RefV>::empty());
    while i < items.len()
        invariant
            i <= items@.len(),
            all == contents(items@),
            refs_v(out@) == present(all.take(i as int)),
        decreases items@.len() - i,
    {
        proof {
            assert(all.take(i as int + 1).drop_last() =~= all.take(i as int));
            assert(all.take(i as int + 1).last() == items@[i as int].content());
        }
        match &items[i].0 {
            Some(x) => {
                let ghost before = out@;
                let y = x.duplicate();
                out.push(y);
                assert(refs_v(out@) =~= refs_v(before).push(y@));
            },
            None => {},
        }
        i = i + 1;
    }
    assert(all.take(i as int) =~= all);
    out
}

pub open spec fn refs_outcome(r: EngineResult<Vec<GroupItemRef>>) -> Result<Seq<RefV>, ErrorV> {
    match r {
        Ok(v) => Ok(refs_v(v@)),
        Err(e) => Err(e@),
    }
}

/// The grouped ones of the named items.
pub open spec fn loads_grouped(q: QueueV, ids: Seq<ItemId>) -> Script<Result<Seq<RefV>, ErrorV>> {
    chain(
        reads_in::<MaybeGrouped>(
            SELECT_GROUPED_ITEMS@,
            GROUPED_ONLY@,
            own(q),
            id_texts(ids),
            RELATIONAL_BATCH as nat,
        ),
        |found: Seq<Option<RefV>>| Script::Done(Ok::<Seq<RefV>, ErrorV>(present(found))),
    )
}

pub fn load_grouped_items<T: RelTx>(tx: &mut RelSession<T>, shard: &QueueKey, ids: &Vec<ItemId>) -> (r:
    EngineResult<Vec<GroupItemRef>>)
    ensures
        held(old(tx).trace(), final(tx).trace(), loads_grouped(shard@, ids@), refs_outcome(r)),
{
    proof {
        lemma_start(tx.trace(), loads_grouped(shard@, ids@));
    }
    let names = id_strings(ids);
    match query_listed::<T, MaybeGrouped>(
        tx,
        SELECT_GROUPED_ITEMS,
        GROUPED_ONLY,
        &own_params(shard),
        &names,
        RELATIONAL_BATCH,
    ) {
        Err(e) => Err(e),
        Ok(rows) => Ok(keep_present(rows)),
    }
}

/// Texts, each once, as they first occur.
pub open spec fn distinct(list: Seq<Seq<char>>) -> Seq<Seq<char>>
    decreases list.len(),
{
    if list.len() == 0 {
        Seq::empty()
    } else {
        with_group(distinct(list.drop_last()), list.last())
    }
}

fn distinct_texts(rows: &Vec<TextRow>) -> (r: Vec<String>)
    ensures
        texts(r@) == distinct(contents(rows@)),
{
    let ghost all = contents(rows@);
    let mut out: Vec<String> = Vec::new();
    let mut i: usize = 0;
    assert(all.take(0) =~= Seq::<Seq<char>>::empty());
    assert(texts(out@) =~= Seq::<Seq<char>>::empty());
    while i < rows.len()
        invariant
            i <= rows@.len(),
            all == contents(rows@),
            texts(out@) == distinct(all.take(i as int)),
        decreases rows@.len() - i,
    {
        proof {
            assert(all.take(i as int + 1).drop_last() =~= all.take(i as int));
            assert(all.take(i as int + 1).last() == rows@[i as int].content());
        }
        add_group(&mut out, rows[i].0.as_str());
        i = i + 1;
    }
    assert(all.take(i as int) =~= all);
    out
}

pub open spec fn texts_outcome(r: EngineResult<Vec<String>>) -> Result<Seq<Seq<char>>, ErrorV> {
    match r {
        Ok(v) => Ok(texts(v@)),
        Err(e) => Err(e@),
    }
}

/// The groups of the named items.
pub open spec fn asks_groups(q: QueueV, ids: Seq<ItemId>) -> Script<
    Result<Seq<Seq<char>>, ErrorV>,
> {
    chain(
        reads_in::<TextRow>(
            SELECT_GROUPS@,
            GROUPED_ONLY@,
            own(q),
            id_texts(ids),
            RELATIONAL_BATCH as nat,
        ),
        |found: Seq<Seq<char>>| Script::Done(Ok::<Seq<Seq<char>>, ErrorV>(distinct(found))),
    )
}

pub fn groups_of<T: RelTx>(tx: &mut RelSession<T>, shard: &QueueKey, ids: &Vec<ItemId>) -> (r:
    EngineResult<Vec<String>>)
    ensures
        held(old(tx).trace(), final(tx).trace(), asks_groups(shard@, ids@), texts_outcome(r)),
{
    proof {
        lemma_start(tx.trace(), asks_groups(shard@, ids@));
    }
    let names = id_strings(ids);
    match query_listed::<T, TextRow>(
        tx,
        SELECT_GROUPS,
        GROUPED_ONLY,
        &own_params(shard),
        &names,
        RELATIONAL_BATCH,
    ) {
        Err(e) => Err(e),
        Ok(rows) => Ok(distinct_texts(&rows)),
    }
}

/// The stored summaries of groups.
pub open spec fn loads_summaries(q: QueueV, groups: Seq<Seq<char>>) -> Script<
    Result<Seq<LoadedV>, ErrorV>,
> {
    reads_in::<LoadedSummary>(
        SELECT_SUMMARIES@,
        Seq::empty(),
        own(q),
        groups,
        RELATIONAL_BATCH as nat,
    )
}

pub fn load_summaries<T: RelTx>(tx: &mut RelSession<T>, shard: &QueueKey, groups: &Vec<String>) -> (r:
    EngineResult<Vec<LoadedSummary>>)
    ensures
        held(
            old(tx).trace(),
            final(tx).trace(),
            loads_summaries(shard@, texts(groups@)),
            contents_outcome(r),
        ),
{
    assert(""@ =~= Seq::<char>::empty()) by {
        reveal_strlit("");
    }
    query_listed::<T, LoadedSummary>(
        tx,
        SELECT_SUMMARIES,
        "",
        &own_params(shard),
        groups,
        RELATIONAL_BATCH,
    )
}

/// The summary that was read last for a group.
pub open spec fn latest(found: Seq<LoadedV>, group: Seq<char>) -> Option<LoadedV>
    decreases found.len(),
{
    if found.len() == 0 {
        None
    } else if found.last().group_key == group {
        Some(found.last())
    } else {
        latest(found.drop_last(), group)
    }
}

fn find_summary<'a>(found: &'a Vec<LoadedSummary>, group: &str) -> (r: Option<&'a LoadedSummary>)
    ensures
        match r {
            Some(x) => latest(contents(found@), group@) == Some(x@),
            None => latest(contents(found@), group@) is None,
        },
{
    let ghost all = contents(found@);
    let mut i: usize = found.len();
    assert(all.take(i as int) =~= all);
    while i > 0
        invariant
            i <= found@.len(),
            all == contents(found@),
            latest(all, group@) == latest(all.take(i as int), group@),
        decreases i,
    {
        proof {
            assert(all.take(i as int).drop_last() =~= all.take(i as int - 1));
            assert(all.take(i as int).last() == found@[i as int - 1]@);
        }
        if same_text(found[i - 1].group_key.as_str(), group) {
            return Some(&found[i - 1]);
        }
        i = i - 1;
    }
    None
}

pub open spec fn summary_cells(q: QueueV, now: i64) -> spec_fn(WriteV) -> Seq<CellV> {
    |w: WriteV|
        own(q).push(CellV::Text(w.group_key)).push(int_cell(w.oldest)).push(
            blob_cell(w.rep_priority_sort),
        ).push(int_cell(w.rep_created_at)).push(text_cell(w.rep_item_id)).push(
            CellV::Integer(w.count),
        ).push(CellV::Integer(now))
}

/// Summaries are stored.
pub open spec fn stores(q: QueueV, writes: Seq<WriteV>, now: i64) -> Script<Result<(), ErrorV>> {
    rows_in(
        UPSERT_SUMMARIES@,
        SUMMARY_ROW@,
        UPSERT_SUMMARIES_END@,
        writes.map_values(summary_cells(q, now)),
        Seq::empty(),
        SUMMARY_UPSERT_BATCH as nat,
    )
}

pub fn upsert_group_summaries<T: RelTx>(
    tx: &mut RelSession<T>,
    shard: &QueueKey,
    rows: &Vec<SummaryWrite>,
    now: UtcTimestamp,
) -> (r: EngineResult<()>)
    ensures
        held(
            old(tx).trace(),
            final(tx).trace(),
            stores(shard@, writes_v(rows@), nanos(now)),
            outcome(r),
        ),
{
    let now_n = ts_nanos(now);
    let ghost cells = writes_v(rows@).map_values(summary_cells(shard@, now_n));
    let mut params: Vec<Params> = Vec::new();
    let mut i: usize = 0;
    assert(params_v(params@) =~= cells.take(0));
    while i < rows.len()
        invariant
            i <= rows@.len(),
            cells == writes_v(rows@).map_values(summary_cells(shard@, now_n)),
            params_v(params@) == cells.take(i as int),
        decreases rows@.len() - i,
    {
        let row = &rows[i];
        let ghost before = params@;
        let p = own_params(shard).text(row.group_key.as_str()).maybe_int(row.oldest).maybe_blob(
            &row.rep_priority_sort,
        ).maybe_int(row.rep_created_at).maybe_text(&row.rep_item_id).number(row.count).number(
            now_n,
        );
        params.push(p);
        proof {
            assert(writes_v(rows@)[i as int] == row@);
            assert(cells[i as int] == p@);
            assert(params_v(params@) =~= params_v(before).push(p@));
            assert(cells.take(i as int + 1) =~= cells.take(i as int).push(cells[i as int]));
        }
        i = i + 1;
    }
    assert(cells.take(i as int) =~= cells);
    run_rows(
        tx,
        UPSERT_SUMMARIES,
        SUMMARY_ROW,
        UPSERT_SUMMARIES_END,
        &params,
        &Params::new(),
        SUMMARY_UPSERT_BATCH,
    )
}

/// The summaries of groups from the items that may be claimed.
pub open spec fn summaries_of(groups: Seq<Seq<char>>, items: Seq<RefV>) -> Seq<WriteV> {
    groups.map_values(|g: Seq<char>| summary_of(g, of_group(items, g)))
}

fn summarize(groups: &Vec<String>, items: &Vec<GroupItemRef>) -> (r: Vec<SummaryWrite>)
    ensures
        writes_v(r@) == summaries_of(texts(groups@), refs_v(items@)),
{
    let ghost all = summaries_of(texts(groups@), refs_v(items@));
    let mut out: Vec<SummaryWrite> = Vec::new();
    let mut i: usize = 0;
    assert(writes_v(out@) =~= all.take(0));
    while i < groups.len()
        invariant
            i <= groups@.len(),
            all == summaries_of(texts(groups@), refs_v(items@)),
            writes_v(out@) == all.take(i as int),
        decreases groups@.len() - i,
    {
        let ghost before = out@;
        let members = items_of_group(items, groups[i].as_str());
        let w = write_from_items(groups[i].as_str(), &members);
        out.push(w);
        proof {
            assert(texts(groups@)[i as int] == groups@[i as int]@);
            assert(all[i as int] == w@);
            assert(writes_v(out@) =~= writes_v(before).push(w@));
            assert(all.take(i as int + 1) =~= all.take(i as int).push(all[i as int]));
        }
        i = i + 1;
    }
    assert(all.take(i as int) =~= all);
    out
}

/// The summaries of groups are made anew from the items that may be claimed now.
pub open spec fn refreshes(q: QueueV, groups: Seq<Seq<char>>, now: i64) -> Script<
    Result<(), ErrorV>,
> {
    if groups.len() == 0 {
        Script::Done(Ok(()))
    } else {
        chain(
            asks_gates(q),
            |gated: bool|
                chain(
                    reads_in::<GroupItemRef>(
                        SELECT_ELIGIBLE_OF_GROUPS@,
                        if gated {
                            GATE_ANTI_JOIN@
                        } else {
                            Seq::empty()
                        },
                        own(q).push(CellV::Integer(now)),
                        groups,
                        RELATIONAL_BATCH as nat,
                    ),
                    |found: Seq<RefV>| stores(q, summaries_of(groups, found), now),
                ),
        )
    }
}

/// Makes the summaries of groups anew.
pub fn refresh_group_summaries<T: RelTx>(
    tx: &mut RelSession<T>,
    shard: &QueueKey,
    group_keys: &Vec<String>,
    now: UtcTimestamp,
) -> (r: EngineResult<()>)
    ensures
        held(
            old(tx).trace(),
            final(tx).trace(),
            refreshes(shard@, texts(group_keys@), nanos(now)),
            outcome(r),
        ),
{
    proof {
        lemma_start(tx.trace(), refreshes(shard@, texts(group_keys@), nanos(now)));
    }
    if group_keys.len() == 0 {
        return Ok(());
    }
    let gated = match has_blocked_gates(tx, shard) {
        Err(e) => return Err(e),
        Ok(b) => b,
    };
    let suffix = if gated {
        GATE_ANTI_JOIN
    } else {
        ""
    };
    assert(""@ =~= Seq::<char>::empty()) by {
        reveal_strlit("");
    }
    let found = match query_listed::<T, GroupItemRef>(
        tx,
        SELECT_ELIGIBLE_OF_GROUPS,
        suffix,
        &own_params(shard).number(ts_nanos(now)),
        group_keys,
        RELATIONAL_BATCH,
    ) {
        Err(e) => return Err(e),
        Ok(v) => v,
    };
    assert(contents(found@) =~= refs_v(found@));
    let writes = summarize(group_keys, &found);
    upsert_group_summaries(tx, shard, &writes, now)
}

/// Which summaries are written at once, and which groups are made anew.
pub ghost struct Split {
    pub writes: Seq<WriteV>,
    pub fallback: Seq<Seq<char>>,
}

/// A group's summary with newly eligible items.
pub open spec fn summary_with(current: LoadedV, incoming: Seq<RefV>) -> WriteV {
    let wins = match head_of(incoming) {
        None => false,
        Some(i) => match (
            current.rep_item_id,
            current.rep_priority_sort,
            current.rep_created_seq,
        ) {
            (Some(_), Some(sort), Some(seq)) => beats(i, sort, seq),
            _ => true,
        },
    };
    WriteV {
        group_key: current.group_key,
        oldest: earlier(current.oldest, oldest_of(incoming)),
        rep_priority_sort: if wins {
            Some(head_of(incoming)->Some_0.priority_sort)
        } else {
            current.rep_priority_sort
        },
        rep_created_at: if wins {
            Some(head_of(incoming)->Some_0.created_at)
        } else {
            current.rep_created_at
        },
        rep_item_id: if wins {
            Some(head_of(incoming)->Some_0.item_id)
        } else {
            current.rep_item_id
        },
        count: wrapped_sum(current.count, incoming.len() as i64),
    }
}

pub open spec fn split_add(found: Seq<LoadedV>, added: Seq<RefV>, s: Split, g: Seq<char>) -> Split {
    let incoming = of_group(added, g);
    match latest(found, g) {
        None => Split { writes: s.writes.push(summary_of(g, incoming)), ..s },
        Some(current) => if current.count > 0 && current.rep_created_seq is None {
            Split { fallback: s.fallback.push(g), ..s }
        } else {
            Split { writes: s.writes.push(summary_with(current, incoming)), ..s }
        },
    }
}

/// Each group in turn.
pub open spec fn split_all(
    groups: Seq<Seq<char>>,
    f: spec_fn(Split, Seq<char>) -> Split,
) -> Split
    decreases groups.len(),
{
    if groups.len() == 0 {
        Split { writes: Seq::empty(), fallback: Seq::empty() }
    } else {
        f(split_all(groups.drop_last(), f), groups.last())
    }
}

pub open spec fn adding(found: Seq<LoadedV>, added: Seq<RefV>) -> spec_fn(Split, Seq<char>) -> Split {
    |s: Split, g: Seq<char>| split_add(found, added, s, g)
}

/// Newly eligible items join the summaries of their groups. Behind blocked gates the summaries are
/// made anew.
pub open spec fn adds(q: QueueV, groups: Seq<Seq<char>>, added: Seq<RefV>, now: i64) -> Script<
    Result<(), ErrorV>,
> {
    if groups.len() == 0 {
        Script::Done(Ok(()))
    } else {
        chain(
            asks_gates(q),
            |gated: bool|
                if gated {
                    refreshes(q, groups, now)
                } else {
                    chain(
                        loads_summaries(q, groups),
                        |found: Seq<LoadedV>|
                            chain(
                                stores(q, split_all(groups, adding(found, added)).writes, now),
                                |u: ()|
                                    refreshes(
                                        q,
                                        split_all(groups, adding(found, added)).fallback,
                                        now,
                                    ),
                            ),
                    )
                },
        )
    }
}

fn push_text(list: &mut Vec<String>, t: &str)
    ensures
        texts(final(list)@) == texts(old(list)@).push(t@),
{
    let ghost before = list@;
    list.push(t.to_owned());
    assert(texts(list@) =~= texts(before).push(t@));
}

fn push_write(list: &mut Vec<SummaryWrite>, w: SummaryWrite)
    ensures
        writes_v(final(list)@) == writes_v(old(list)@).push(w@),
{
    let ghost before = list@;
    list.push(w);
    assert(writes_v(list@) =~= writes_v(before).push(w@));
}

fn clone_opt_bytes(b: &Option<Vec<u8>>) -> (r: Option<Vec<u8>>)
    ensures
        bytes_opt(r) == bytes_opt(*b),
{
    match b {
        Some(x) => Some(clone_bytes(x)),
        None => None,
    }
}

fn extend_summary(current: &LoadedSummary, incoming: &Vec<GroupItemRef>) -> (r: SummaryWrite)
    ensures
        r@ == summary_with(current@, refs_v(incoming@)),
{
    let oldest = earlier_of(current.oldest, oldest_item(incoming));
    let count = wrap_sum(current.count, incoming.len() as i64);
    let group_key = current.group_key.clone();
    let best = best_item(incoming);
    let wins = match best {
        None => false,
        Some(i) => match (
            &current.rep_item_id,
            &current.rep_priority_sort,
            current.rep_created_seq,
        ) {
            (Some(_), Some(sort), Some(seq)) => item_beats(i, sort, seq),
            _ => true,
        },
    };
    match best {
        Some(i) if wins => SummaryWrite {
            group_key,
            oldest,
            rep_priority_sort: Some(clone_bytes(&i.priority_sort)),
            rep_created_at: Some(i.created_at),
            rep_item_id: Some(i.item_id.clone()),
            count,
        },
        _ => SummaryWrite {
            group_key,
            oldest,
            rep_priority_sort: clone_opt_bytes(&current.rep_priority_sort),
            rep_created_at: current.rep_created_at,
            rep_item_id: clone_opt_text(&current.rep_item_id),
            count,
        },
    }
}

fn split_for_add(
    groups: &Vec<String>,
    found: &Vec<LoadedSummary>,
    added: &Vec<GroupItemRef>,
) -> (r: (Vec<SummaryWrite>, Vec<String>))
    ensures
        (Split { writes: writes_v(r.0@), fallback: texts(r.1@) }) == split_all(
            texts(groups@),
            adding(contents(found@), refs_v(added@)),
        ),
{
    let ghost all = texts(groups@);
    let ghost f = adding(contents(found@), refs_v(added@));
    let mut writes: Vec<SummaryWrite> = Vec::new();
    let mut fallback: Vec<String> = Vec::new();
    let mut i: usize = 0;
    assert(all.take(0) =~= Seq::<Seq<char>>::empty());
    assert(writes_v(writes@) =~= Seq::<WriteV>::empty());
    assert(texts(fallback@) =~= Seq::<Seq<char>>::empty());
    while i < groups.len()
        invariant
            i <= groups@.len(),
            all == texts(groups@),
            f == adding(contents(found@), refs_v(added@)),
            (Split { writes: writes_v(writes@), fallback: texts(fallback@) }) == split_all(
                all.take(i as int),
                f,
            ),
        decreases groups@.len() - i,
    {
        proof {
            assert(all.take(i as int + 1).drop_last() =~= all.take(i as int));
            assert(all.take(i as int + 1).last() == groups@[i as int]@);
        }
        let group = groups[i].as_str();
        let incoming = items_of_group(added, group);
        match find_summary(found, group) {
            None => push_write(&mut writes, write_from_items(group, &incoming)),
            Some(current) => if current.count > 0 && current.rep_created_seq.is_none() {
                push_text(&mut fallback, group);
            } else {
                push_write(&mut writes, extend_summary(current, &incoming));
            },
        }
        i = i + 1;
    }
    assert(all.take(i as int) =~= all);
    (writes, fallback)
}

/// Newly eligible items join the summaries of their groups.
pub fn apply_group_summary_add<T: RelTx>(
    tx: &mut RelSession<T>,
    shard: &QueueKey,
    groups: &Vec<String>,
    added: &Vec<GroupItemRef>,
    now: UtcTimestamp,
) -> (r: EngineResult<()>)
    ensures
        held(
            old(tx).trace(),
            final(tx).trace(),
            adds(shard@, texts(groups@), refs_v(added@), nanos(now)),
            outcome(r),
        ),
{
    proof {
        lemma_start(tx.trace(), adds(shard@, texts(groups@), refs_v(added@), nanos(now)));
    }
    if groups.len() == 0 {
        return Ok(());
    }
    match has_blocked_gates(tx, shard) {
        Err(e) => return Err(e),
        Ok(true) => return refresh_group_summaries(tx, shard, groups, now),
        Ok(false) => {},
    }
    let existing = match load_summaries(tx, shard, groups) {
        Err(e) => return Err(e),
        Ok(v) => v,
    };
    let (writes, fallback) = split_for_add(groups, &existing, added);
    match upsert_group_summaries(tx, shard, &writes, now) {
        Err(e) => return Err(e),
        Ok(_) => {},
    }
    refresh_group_summaries(tx, shard, &fallback, now)
}

/// Some of the items is the named one.
pub open spec fn names_item(items: Seq<RefV>, id: Option<Seq<char>>) -> bool {
    id is Some && exists|i: int|
        0 <= i < items.len() && (#[trigger] items[i]).item_id == id->Some_0
}

/// Some of the items is as old as that.
pub open spec fn as_old(items: Seq<RefV>, oldest: Option<i64>) -> bool {
    oldest is Some && exists|i: int|
        0 <= i < items.len() && (#[trigger] items[i]).eligible_since == oldest->Some_0
}

fn has_item(items: &Vec<GroupItemRef>, id: &Option<String>) -> (r: bool)
    ensures
        r == names_item(refs_v(items@), opt_text(*id)),
{
    match id {
        None => false,
        Some(t) => {
            let ghost all = refs_v(items@);
            let mut i: usize = 0;
            while i < items.len()
                invariant
                    i <= items@.len(),
                    all == refs_v(items@),
                    opt_text(*id) == Some(t@),
                    forall|j: int| 0 <= j < i ==> (#[trigger] all[j]).item_id != t@,
                decreases items@.len() - i,
            {
                assert(all[i as int] == items@[i as int]@);
                if same_text(items[i].item_id.as_str(), t.as_str()) {
                    return true;
                }
                i = i + 1;
            }
            false
        },
    }
}

fn has_as_old(items: &Vec<GroupItemRef>, oldest: Option<i64>) -> (r: bool)
    ensures
        r == as_old(refs_v(items@), oldest),
{
    match oldest {
        None => false,
        Some(t) => {
            let ghost all = refs_v(items@);
            let mut i: usize = 0;
            while i < items.len()
                invariant
                    i <= items@.len(),
                    all == refs_v(items@),
                    oldest == Some(t),
                    forall|j: int| 0 <= j < i ==> (#[trigger] all[j]).eligible_since != t,
                decreases items@.len() - i,
            {
                assert(all[i as int] == items@[i as int]@);
                if items[i].eligible_since == t {
                    return true;
                }
                i = i + 1;
            }
            false
        },
    }
}

/// A group's summary as it is stored, with another count.
pub open spec fn recounted_summary(current: LoadedV, count: i64) -> WriteV {
    WriteV {
        group_key: current.group_key,
        oldest: current.oldest,
        rep_priority_sort: current.rep_priority_sort,
        rep_created_at: current.rep_created_at,
        rep_item_id: current.rep_item_id,
        count,
    }
}

fn recount_summary(current: &LoadedSummary, count: i64) -> (r: SummaryWrite)
    ensures
        r@ == recounted_summary(current@, count),
{
    SummaryWrite {
        group_key: current.group_key.clone(),
        oldest: current.oldest,
        rep_priority_sort: clone_opt_bytes(&current.rep_priority_sort),
        rep_created_at: current.rep_created_at,
        rep_item_id: clone_opt_text(&current.rep_item_id),
        count,
    }
}

/// How many are left of a count.
pub open spec fn less(count: i64, n: nat) -> i64 {
    wrapped_sum(count, negated(n as i64))
}

pub open spec fn negated(v: i64) -> i64 {
    if v == i64::MIN {
        v
    } else {
        (-v) as i64
    }
}

fn negate(v: i64) -> (r: i64)
    ensures
        r == negated(v),
{
    if v == -0x8000_0000_0000_0000 {
        v
    } else {
        -v
    }
}

/// A group loses items: its summary only counts fewer, unless it loses its head or its oldest.
pub open spec fn split_remove(found: Seq<LoadedV>, removed: Seq<RefV>, s: Split, g: Seq<char>) -> Split {
    let leaving = of_group(removed, g);
    match latest(found, g) {
        None => Split { fallback: s.fallback.push(g), ..s },
        Some(current) => {
            let left = less(current.count, leaving.len());
            if names_item(leaving, current.rep_item_id) || as_old(leaving, current.oldest) || left
                < 0 {
                Split { fallback: s.fallback.push(g), ..s }
            } else {
                Split { writes: s.writes.push(recounted_summary(current, left)), ..s }
            }
        },
    }
}

pub open spec fn removing(found: Seq<LoadedV>, removed: Seq<RefV>) -> spec_fn(Split, Seq<char>) ->
    Split {
    |s: Split, g: Seq<char>| split_remove(found, removed, s, g)
}

/// Items leave eligibility. A group that loses its head or its oldest gets a new head.
pub open spec fn removes(q: QueueV, removed: Seq<RefV>, now: i64) -> Script<Result<(), ErrorV>> {
    if removed.len() == 0 {
        Script::Done(Ok(()))
    } else {
        chain(
            asks_gates(q),
            |gated: bool|
                if gated {
                    refreshes(q, groups_in(removed), now)
                } else {
                    chain(
                        loads_summaries(q, groups_in(removed)),
                        |found: Seq<LoadedV>|
                            chain(
                                stores(
                                    q,
                                    split_all(groups_in(removed), removing(found, removed)).writes,
                                    now,
                                ),
                                |u: ()|
                                    recomputes(
                                        q,
                                        split_all(
                                            groups_in(removed),
                                            removing(found, removed),
                                        ).fallback,
                                        now,
                                    ),
                            ),
                    )
                },
        )
    }
}

/// The groups of stored heads.
pub open spec fn head_groups(w: Seq<WriteV>) -> Seq<Seq<char>> {
    w.map_values(|x: WriteV| x.group_key)
}

/// Groups without a head, in order, have empty summaries.
pub open spec fn empty_summaries(groups: Seq<Seq<char>>, seen: Seq<Seq<char>>) -> Seq<WriteV>
    decreases groups.len(),
{
    if groups.len() == 0 {
        Seq::empty()
    } else if seen.contains(groups.last()) {
        empty_summaries(groups.drop_last(), seen)
    } else {
        empty_summaries(groups.drop_last(), seen).push(summary_of(groups.last(), Seq::empty()))
    }
}

/// Groups get the heads that the store finds for them.
pub open spec fn recomputes(q: QueueV, groups: Seq<Seq<char>>, now: i64) -> Script<
    Result<(), ErrorV>,
> {
    if groups.len() == 0 {
        Script::Done(Ok(()))
    } else {
        chain(
            asks_gates(q),
            |gated: bool|
                if gated {
                    refreshes(q, groups, now)
                } else {
                    chain(
                        reads_in::<SummaryWrite>(
                            SELECT_HEADS@,
                            SELECT_HEADS_END@,
                            own(q).push(CellV::Integer(now)),
                            groups,
                            SUMMARY_UPSERT_BATCH as nat,
                        ),
                        |heads: Seq<WriteV>|
                            stores(q, heads + empty_summaries(groups, head_groups(heads)), now),
                    )
                },
        )
    }
}

fn groups_of_writes(writes: &Vec<SummaryWrite>) -> (r: Vec<String>)
    ensures
        texts(r@) == head_groups(writes_v(writes@)),
{
    let ghost all = head_groups(writes_v(writes@));
    let mut out: Vec<String> = Vec::new();
    let mut i: usize = 0;
    assert(texts(out@) =~= all.take(0));
    while i < writes.len()
        invariant
            i <= writes@.len(),
            all == head_groups(writes_v(writes@)),
            texts(out@) == all.take(i as int),
        decreases writes@.len() - i,
    {
        push_text(&mut out, writes[i].group_key.as_str());
        assert(all.take(i as int + 1) =~= all.take(i as int).push(all[i as int]));
        i = i + 1;
    }
    assert(all.take(i as int) =~= all);
    out
}

fn add_empty(writes: &mut Vec<SummaryWrite>, groups: &Vec<String>, seen: &Vec<String>)
    ensures
        writes_v(final(writes)@) == writes_v(old(writes)@) + empty_summaries(
            texts(groups@),
            texts(seen@),
        ),
{
    let ghost start = writes_v(writes@);
    let ghost all = texts(groups@);
    let mut i: usize = 0;
    assert(all.take(0) =~= Seq::<Seq<char>>::empty());
    assert(writes_v(writes@) =~= start + empty_summaries(all.take(0), texts(seen@)));
    while i < groups.len()
        invariant
            i <= groups@.len(),
            all == texts(groups@),
            writes_v(writes@) == start + empty_summaries(all.take(i as int), texts(seen@)),
        decreases groups@.len() - i,
    {
        proof {
            assert(all.take(i as int + 1).drop_last() =~= all.take(i as int));
            assert(all.take(i as int + 1).last() == groups@[i as int]@);
        }
        if !contains_text(seen, groups[i].as_str()) {
            let none: Vec<GroupItemRef> = Vec::new();
            assert(refs_v(none@) =~= Seq::<RefV>::empty());
            let w = write_from_items(groups[i].as_str(), &none);
            push_write(writes, w);
            assert(writes_v(writes@) =~= start + empty_summaries(
                all.take(i as int + 1),
                texts(seen@),
            ));
        }
        i = i + 1;
    }
    assert(all.take(i as int) =~= all);
}

/// Gives groups that lost their head a new one.
pub fn recompute_group_heads<T: RelTx>(
    tx: &mut RelSession<T>,
    shard: &QueueKey,
    groups: &Vec<String>,
    now: UtcTimestamp,
) -> (r: EngineResult<()>)
    ensures
        held(
            old(tx).trace(),
            final(tx).trace(),
            recomputes(shard@, texts(groups@), nanos(now)),
            outcome(r),
        ),
{
    proof {
        lemma_start(tx.trace(), recomputes(shard@, texts(groups@), nanos(now)));
    }
    if groups.len() == 0 {
        return Ok(());
    }
    match has_blocked_gates(tx, shard) {
        Err(e) => return Err(e),
        Ok(true) => return refresh_group_summaries(tx, shard, groups, now),
        Ok(false) => {},
    }
    let mut writes = match query_listed::<T, SummaryWrite>(
        tx,
        SELECT_HEADS,
        SELECT_HEADS_END,
        &own_params(shard).number(ts_nanos(now)),
        groups,
        SUMMARY_UPSERT_BATCH,
    ) {
        Err(e) => return Err(e),
        Ok(v) => v,
    };
    assert(contents(writes@) =~= writes_v(writes@));
    let seen = groups_of_writes(&writes);
    add_empty(&mut writes, groups, &seen);
    upsert_group_summaries(tx, shard, &writes, now)
}

fn split_for_remove(
    groups: &Vec<String>,
    found: &Vec<LoadedSummary>,
    removed: &Vec<GroupItemRef>,
) -> (r: (Vec<SummaryWrite>, Vec<String>))
    ensures
        (Split { writes: writes_v(r.0@), fallback: texts(r.1@) }) == split_all(
            texts(groups@),
            removing(contents(found@), refs_v(removed@)),
        ),
{
    let ghost all = texts(groups@);
    let ghost f = removing(contents(found@), refs_v(removed@));
    let mut writes: Vec<SummaryWrite> = Vec::new();
    let mut fallback: Vec<String> = Vec::new();
    let mut i: usize = 0;
    assert(all.take(0) =~= Seq::<Seq<char>>::empty());
    assert(writes_v(writes@) =~= Seq::<WriteV>::empty());
    assert(texts(fallback@) =~= Seq::<Seq<char>>::empty());
    while i < groups.len()
        invariant
            i <= groups@.len(),
            all == texts(groups@),
            f == removing(contents(found@), refs_v(removed@)),
            (Split { writes: writes_v(writes@), fallback: texts(fallback@) }) == split_all(
                all.take(i as int),
                f,
            ),
        decreases groups@.len() - i,
    {
        proof {
            assert(all.take(i as int + 1).drop_last() =~= all.take(i as int));
            assert(all.take(i as int + 1).last() == groups@[i as int]@);
        }
        let group = groups[i].as_str();
        let leaving = items_of_group(removed, group);
        match find_summary(found, group) {
            None => push_text(&mut fallback, group),
            Some(current) => {
                let left = wrap_sum(current.count, negate(leaving.len() as i64));
                if has_item(&leaving, &current.rep_item_id) || has_as_old(&leaving, current.oldest)
                    || left < 0 {
                    push_text(&mut fallback, group);
                } else {
                    push_write(&mut writes, recount_summary(current, left));
                }
            },
        }
        i = i + 1;
    }
    assert(all.take(i as int) =~= all);
    (writes, fallback)
}

/// Items leave the summaries of their groups.
pub fn apply_group_summary_remove<T: RelTx>(
    tx: &mut RelSession<T>,
    shard: &QueueKey,
    removed: &Vec<GroupItemRef>,
    now: UtcTimestamp,
) -> (r: EngineResult<()>)
    ensures
        held(
            old(tx).trace(),
            final(tx).trace(),
            removes(shard@, refs_v(removed@), nanos(now)),
            outcome(r),
        ),
{
    proof {
        lemma_start(tx.trace(), removes(shard@, refs_v(removed@), nanos(now)));
    }
    if removed.len() == 0 {
        return Ok(());
    }
    let groups = unique_groups(removed);
    match has_blocked_gates(tx, shard) {
        Err(e) => return Err(e),
        Ok(true) => return refresh_group_summaries(tx, shard, &groups, now),
        Ok(false) => {},
    }
    let existing = match load_summaries(tx, shard, &groups) {
        Err(e) => return Err(e),
        Ok(v) => v,
    };
    let (writes, fallback) = split_for_remove(&groups, &existing, removed);
    match upsert_group_summaries(tx, shard, &writes, now) {
        Err(e) => return Err(e),
        Ok(_) => {},
    }
    recompute_group_heads(tx, shard, &fallback, now)
}

/// A group's items move in claim order: a moved item may become the head, but where the head itself
/// moved, the summary is made anew.
pub open spec fn split_rerank(found: Seq<LoadedV>, updated: Seq<RefV>, s: Split, g: Seq<char>) -> Split {
    let changed = of_group(updated, g);
    match latest(found, g) {
        None => Split { fallback: s.fallback.push(g), ..s },
        Some(current) => if names_item(changed, current.rep_item_id) || current.count <= 0
            || current.rep_created_seq is None || current.rep_priority_sort is None {
            Split { fallback: s.fallback.push(g), ..s }
        } else {
            Split { writes: s.writes.push(reranked(current, changed)), ..s }
        },
    }
}

/// A group's summary with the first of its moved items as head, where that comes first.
pub open spec fn reranked(current: LoadedV, changed: Seq<RefV>) -> WriteV {
    match head_of(changed) {
        Some(i) if beats(
            i,
            current.rep_priority_sort->Some_0,
            current.rep_created_seq->Some_0,
        ) => WriteV {
            rep_priority_sort: Some(i.priority_sort),
            rep_created_at: Some(i.created_at),
            rep_item_id: Some(i.item_id),
            ..recounted_summary(current, current.count)
        },
        _ => recounted_summary(current, current.count),
    }
}

pub open spec fn reranking(found: Seq<LoadedV>, updated: Seq<RefV>) -> spec_fn(Split, Seq<char>) ->
    Split {
    |s: Split, g: Seq<char>| split_rerank(found, updated, s, g)
}

/// Items that stay eligible move in claim order.
pub open spec fn reranks(q: QueueV, updated: Seq<RefV>, since_changed: bool, now: i64) -> Script<
    Result<(), ErrorV>,
> {
    if updated.len() == 0 {
        Script::Done(Ok(()))
    } else if since_changed {
        refreshes(q, groups_in(updated), now)
    } else {
        chain(
            asks_gates(q),
            |gated: bool|
                if gated {
                    refreshes(q, groups_in(updated), now)
                } else {
                    chain(
                        loads_summaries(q, groups_in(updated)),
                        |found: Seq<LoadedV>|
                            chain(
                                stores(
                                    q,
                                    split_all(
                                        groups_in(updated),
                                        reranking(found, updated),
                                    ).writes,
                                    now,
                                ),
                                |u: ()|
                                    refreshes(
                                        q,
                                        split_all(
                                            groups_in(updated),
                                            reranking(found, updated),
                                        ).fallback,
                                        now,
                                    ),
                            ),
                    )
                },
        )
    }
}

fn rerank_summary(current: &LoadedSummary, changed: &Vec<GroupItemRef>, sort: &Vec<u8>, seq: i64) -> (r:
    SummaryWrite)
    requires
        bytes_opt(current.rep_priority_sort) == Some(sort@),
        current.rep_created_seq == Some(seq),
    ensures
        r@ == reranked(current@, refs_v(changed@)),
{
    match best_item(changed) {
        Some(i) => {
            if item_beats(i, sort, seq) {
                SummaryWrite {
                    group_key: current.group_key.clone(),
                    oldest: current.oldest,
                    rep_priority_sort: Some(clone_bytes(&i.priority_sort)),
                    rep_created_at: Some(i.created_at),
                    rep_item_id: Some(i.item_id.clone()),
                    count: current.count,
                }
            } else {
                recount_summary(current, current.count)
            }
        },
        None => recount_summary(current, current.count),
    }
}

fn split_for_rerank(
    groups: &Vec<String>,
    found: &Vec<LoadedSummary>,
    updated: &Vec<GroupItemRef>,
) -> (r: (Vec<SummaryWrite>, Vec<String>))
    ensures
        (Split { writes: writes_v(r.0@), fallback: texts(r.1@) }) == split_all(
            texts(groups@),
            reranking(contents(found@), refs_v(updated@)),
        ),
{
    let ghost all = texts(groups@);
    let ghost f = reranking(contents(found@), refs_v(updated@));
    let mut writes: Vec<SummaryWrite> = Vec::new();
    let mut fallback: Vec<String> = Vec::new();
    let mut i: usize = 0;
    assert(all.take(0) =~= Seq::<Seq<char>>::empty());
    assert(writes_v(writes@) =~= Seq::<WriteV>::empty());
    assert(texts(fallback@) =~= Seq::<Seq<char>>::empty());
    while i < groups.len()
        invariant
            i <= groups@.len(),
            all == texts(groups@),
            f == reranking(contents(found@), refs_v(updated@)),
            (Split { writes: writes_v(writes@), fallback: texts(fallback@) }) == split_all(
                all.take(i as int),
                f,
            ),
        decreases groups@.len() - i,
    {
        proof {
            assert(all.take(i as int + 1).drop_last() =~= all.take(i as int));
            assert(all.take(i as int + 1).last() == groups@[i as int]@);
        }
        let group = groups[i].as_str();
        let changed = items_of_group(updated, group);
        match find_summary(found, group) {
            None => push_text(&mut fallback, group),
            Some(current) => {
                let moved = has_item(&changed, &current.rep_item_id);
                match (&current.rep_priority_sort, current.rep_created_seq) {
                    (Some(sort), Some(seq)) => {
                        if moved || current.count <= 0 {
                            push_text(&mut fallback, group);
                        } else {
                            push_write(&mut writes, rerank_summary(current, &changed, sort, seq));
                        }
                    },
                    _ => push_text(&mut fallback, group),
                }
            },
        }
        i = i + 1;
    }
    assert(all.take(i as int) =~= all);
    (writes, fallback)
}

/// Items that stay eligible move in claim order.
pub fn apply_group_summary_rerank<T: RelTx>(
    tx: &mut RelSession<T>,
    shard: &QueueKey,
    updated: &Vec<GroupItemRef>,
    eligible_since_changed: bool,
    now: UtcTimestamp,
) -> (r: EngineResult<()>)
    ensures
        held(
            old(tx).trace(),
            final(tx).trace(),
            reranks(shard@, refs_v(updated@), eligible_since_changed, nanos(now)),
            outcome(r),
        ),
{
    proof {
        lemma_start(
            tx.trace(),
            reranks(shard@, refs_v(updated@), eligible_since_changed, nanos(now)),
        );
    }
    if updated.len() == 0 {
        return Ok(());
    }
    let groups = unique_groups(updated);
    if eligible_since_changed {
        return refresh_group_summaries(tx, shard, &groups, now);
    }
    match has_blocked_gates(tx, shard) {
        Err(e) => return Err(e),
        Ok(true) => return refresh_group_summaries(tx, shard, &groups, now),
        Ok(false) => {},
    }
    let existing = match load_summaries(tx, shard, &groups) {
        Err(e) => return Err(e),
        Ok(v) => v,
    };
    let (writes, fallback) = split_for_rerank(&groups, &existing, updated);
    match upsert_group_summaries(tx, shard, &writes, now) {
        Err(e) => return Err(e),
        Ok(_) => {},
    }
    refresh_group_summaries(tx, shard, &fallback, now)
}

/// The head of a group's items is one of them, and none of them comes before it.
pub proof fn law_head_is_first(items: Seq<RefV>)
    requires
        items.len() > 0,
    ensures
        head_of(items) is Some,
        exists|i: int| 0 <= i < items.len() && items[i] == head_of(items)->Some_0,
        forall|i: int|
            0 <= i < items.len() ==> !beats(
                #[trigger] items[i],
                head_of(items)->Some_0.priority_sort,
                head_of(items)->Some_0.created_seq,
            ),
    decreases items.len(),
{
    let rest = items.drop_last();
    let last = items.last();
    let h = head_of(items)->Some_0;
    lemma_bytes_lt_irreflexive(h.priority_sort);
    lemma_bytes_lt_irreflexive(last.priority_sort);
    if rest.len() == 0 {
        assert(items[0] == last);
    } else {
        law_head_is_first(rest);
        let g = head_of(rest)->Some_0;
        let gi = choose|i: int| 0 <= i < rest.len() && rest[i] == g;
        assert(items[gi] == g);
        assert(items[items.len() - 1] == last);
        assert forall|i: int| 0 <= i < items.len() implies !beats(
            #[trigger] items[i],
            h.priority_sort,
            h.created_seq,
        ) by {
            if i < rest.len() {
                assert(rest[i] == items[i]);
                assert(!beats(rest[i], g.priority_sort, g.created_seq));
                if h == last && beats(last, g.priority_sort, g.created_seq) {
                    if beats(items[i], h.priority_sort, h.created_seq) {
                        if bytes_lt(items[i].priority_sort, h.priority_sort) && bytes_lt(
                            h.priority_sort,
                            g.priority_sort,
                        ) {
                            lemma_bytes_lt_transitive(
                                items[i].priority_sort,
                                h.priority_sort,
                                g.priority_sort,
                            );
                        }
                    }
                }
            }
        }
    }
}

} // verus!
