//! How far the claim scan of a plain queue has come.

use crate::relational::codec::{id_strings, id_texts, wrap_sum, wrapped_sum};
use crate::relational::exec::{RelSession, RelTx, one, query_row};
use crate::relational::lists::{lemma_stretch, list_sql, listed, stretch_end};
use crate::relational::memory::{DriverMemory, Kept, MemoryV, hint_advanced, hint_reset, hold, plain};
use crate::relational::query::{RELATIONAL_BATCH, own, own_params, reset_claim_scan_hint};
use crate::relational::script::{Script, chain, chunks, fold, group_talk, held, lemma_start, reached};
use crate::relational::value::{CellV, RelRow, column, text_cells};
use crate::text::texts;
use crate::types::{EngineError, EngineResult, ErrorV, ItemId, QueueKey, QueueV, outcome};
use vstd::prelude::*;
use vstd::string::*;

verus! {

broadcast use group_talk;

pub const SELECT_SCANNED: &'static str = "SELECT COUNT(*), MAX(rowid), \
             COALESCE(SUM(CASE WHEN priority IS NOT NULL OR not_before IS NOT NULL \
             OR group_key IS NOT NULL OR cohort_size IS NOT NULL THEN 1 ELSE 0 END), 0) \
             FROM fireweed_items WHERE tenant_id=? AND queue_id=? AND item_id IN";

pub const SELECT_SPAN: &'static str = "SELECT COUNT(*), MIN(rowid), MAX(rowid), \
             COALESCE(SUM(CASE WHEN priority IS NOT NULL OR not_before IS NOT NULL \
             OR group_key IS NOT NULL OR cohort_size IS NOT NULL THEN 1 ELSE 0 END), 0) \
             FROM fireweed_items WHERE tenant_id=? AND queue_id=? AND item_id IN";

pub const COUNT_SPAN_IN_STATE: &'static str = "SELECT COUNT(*) FROM fireweed_items WHERE tenant_id=?1 AND queue_id=?2 \
             AND rowid BETWEEN ?3 AND ?4 AND lifecycle_state=?5";

pub const COUNT_SPAN: &'static str = "SELECT COUNT(*) FROM fireweed_items WHERE tenant_id=?1 AND queue_id=?2 \
             AND rowid BETWEEN ?3 AND ?4";

/// Rows found, the lowest and highest of them, and how many are not plain.
#[derive(Clone, Copy, PartialEq, Eq, Structural, Debug)]
pub struct Span {
    pub seen: i64,
    pub lowest: Option<i64>,
    pub highest: Option<i64>,
    pub rich: i64,
}

pub open spec fn no_span() -> Span {
    Span { seen: 0, lowest: None, highest: None, rich: 0 }
}

pub open spec fn lower(a: Option<i64>, b: Option<i64>) -> Option<i64> {
    match (a, b) {
        (x, None) => x,
        (None, y) => y,
        (Some(x), Some(y)) => Some(
            if y < x {
                y
            } else {
                x
            },
        ),
    }
}

pub open spec fn higher(a: Option<i64>, b: Option<i64>) -> Option<i64> {
    match (a, b) {
        (x, None) => x,
        (None, y) => y,
        (Some(x), Some(y)) => Some(
            if y > x {
                y
            } else {
                x
            },
        ),
    }
}

fn lower_of(a: Option<i64>, b: Option<i64>) -> (r: Option<i64>)
    ensures
        r == lower(a, b),
{
    match (a, b) {
        (x, None) => x,
        (None, y) => y,
        (Some(x), Some(y)) => Some(
            if y < x {
                y
            } else {
                x
            },
        ),
    }
}

fn higher_of(a: Option<i64>, b: Option<i64>) -> (r: Option<i64>)
    ensures
        r == higher(a, b),
{
    match (a, b) {
        (x, None) => x,
        (None, y) => y,
        (Some(x), Some(y)) => Some(
            if y > x {
                y
            } else {
                x
            },
        ),
    }
}

pub open spec fn spans_joined(a: Span, b: Span) -> Span {
    Span {
        seen: wrapped_sum(a.seen, b.seen),
        lowest: lower(a.lowest, b.lowest),
        highest: higher(a.highest, b.highest),
        rich: wrapped_sum(a.rich, b.rich),
    }
}

fn join_spans(a: Span, b: Span) -> (r: Span)
    ensures
        r == spans_joined(a, b),
{
    Span {
        seen: wrap_sum(a.seen, b.seen),
        lowest: lower_of(a.lowest, b.lowest),
        highest: higher_of(a.highest, b.highest),
        rich: wrap_sum(a.rich, b.rich),
    }
}

/// The span in a row, with or without its lowest place.
pub open spec fn span_row(with_lowest: bool, row: Seq<CellV>) -> Result<Span, ErrorV> {
    match column::<i64>(row, 0) {
        Err(e) => Err(e),
        Ok(seen) => if with_lowest {
            match column::<Option<i64>>(row, 1) {
                Err(e) => Err(e),
                Ok(lowest) => match column::<Option<i64>>(row, 2) {
                    Err(e) => Err(e),
                    Ok(highest) => match column::<i64>(row, 3) {
                        Err(e) => Err(e),
                        Ok(rich) => Ok(Span { seen, lowest, highest, rich }),
                    },
                },
            }
        } else {
            match column::<Option<i64>>(row, 1) {
                Err(e) => Err(e),
                Ok(highest) => match column::<i64>(row, 2) {
                    Err(e) => Err(e),
                    Ok(rich) => Ok(Span { seen, lowest: None, highest, rich }),
                },
            }
        },
    }
}

fn read_span(with_lowest: bool, row: &RelRow) -> (r: EngineResult<Span>)
    ensures
        outcome(r) == span_row(with_lowest, row@),
{
    let seen = match row.get::<i64>(0) {
        Err(e) => return Err(e),
        Ok(v) => v,
    };
    if with_lowest {
        let lowest = match row.get::<Option<i64>>(1) {
            Err(e) => return Err(e),
            Ok(v) => v,
        };
        let highest = match row.get::<Option<i64>>(2) {
            Err(e) => return Err(e),
            Ok(v) => v,
        };
        let rich = match row.get::<i64>(3) {
            Err(e) => return Err(e),
            Ok(v) => v,
        };
        Ok(Span { seen, lowest, highest, rich })
    } else {
        let highest = match row.get::<Option<i64>>(1) {
            Err(e) => return Err(e),
            Ok(v) => v,
        };
        let rich = match row.get::<i64>(2) {
            Err(e) => return Err(e),
            Ok(v) => v,
        };
        Ok(Span { seen, lowest: None, highest, rich })
    }
}

/// What one stretch of a list adds to a span.
pub open spec fn span_stretch(q: QueueV, sql: Seq<char>, with_lowest: bool) -> spec_fn(
    Span,
    Seq<Seq<char>>,
) -> Script<Result<Span, ErrorV>> {
    |s: Span, chunk: Seq<Seq<char>>|
        chain(
            one(listed(sql, chunk.len(), Seq::empty()), own(q) + text_cells(chunk)),
            |row: Seq<CellV>|
                Script::Done(
                    match span_row(with_lowest, row) {
                        Err(e) => Err::<Span, ErrorV>(e),
                        Ok(t) => Ok(spans_joined(s, t)),
                    },
                ),
        )
}

/// The span of the named items.
pub open spec fn asks_span(q: QueueV, sql: Seq<char>, with_lowest: bool, ids: Seq<Seq<char>>) -> Script<
    Result<Span, ErrorV>,
> {
    fold(chunks(ids, RELATIONAL_BATCH as nat), no_span(), span_stretch(q, sql, with_lowest))
}

fn add_stretch<T: RelTx>(
    tx: &mut RelSession<T>,
    shard: &QueueKey,
    sql: &str,
    with_lowest: bool,
    ids: &Vec<String>,
    from: usize,
    to: usize,
    span: Span,
) -> (r: EngineResult<Span>)
    requires
        from <= to <= ids@.len(),
    ensures
        held(
            old(tx).trace(),
            final(tx).trace(),
            span_stretch(shard@, sql@, with_lowest)(
                span,
                texts(ids@).subrange(from as int, to as int),
            ),
            outcome(r),
        ),
{
    proof {
        lemma_start(
            tx.trace(),
            span_stretch(shard@, sql@, with_lowest)(
                span,
                texts(ids@).subrange(from as int, to as int),
            ),
        );
        assert(""@ =~= Seq::<char>::empty()) by {
            reveal_strlit("");
        }
        assert(texts(ids@).subrange(from as int, to as int).len() == to - from);
    }
    let text = list_sql(sql, to - from, "");
    match query_row(tx, text.as_str(), own_params(shard).texts(ids, from, to)) {
        Err(e) => Err(e),
        Ok(row) => match read_span(with_lowest, &row) {
            Err(e) => Err(e),
            Ok(t) => Ok(join_spans(span, t)),
        },
    }
}

fn query_span<T: RelTx>(
    tx: &mut RelSession<T>,
    shard: &QueueKey,
    sql: &str,
    with_lowest: bool,
    ids: &Vec<String>,
) -> (r: EngineResult<Span>)
    ensures
        held(
            old(tx).trace(),
            final(tx).trace(),
            asks_span(shard@, sql@, with_lowest, texts(ids@)),
            outcome(r),
        ),
{
    let ghost all = texts(ids@);
    let ghost f = span_stretch(shard@, sql@, with_lowest);
    let ghost prog = asks_span(shard@, sql@, with_lowest, all);
    let ghost start = tx.trace();
    let n = ids.len();
    let mut span = Span { seen: 0, lowest: None, highest: None, rich: 0 };
    let mut i: usize = 0;
    proof {
        lemma_start(start, prog);
        assert(all.skip(0) =~= all);
    }
    while i < n
        invariant
            i <= n,
            n == all.len(),
            n == ids@.len(),
            all == texts(ids@),
            start == old(tx).trace(),
            f == span_stretch(shard@, sql@, with_lowest),
            prog == asks_span(shard@, sql@, with_lowest, all),
            reached(
                start,
                tx.trace(),
                prog,
                fold(chunks(all.skip(i as int), RELATIONAL_BATCH as nat), span, f),
            ),
        decreases n - i,
    {
        let end = stretch_end(i, n, RELATIONAL_BATCH);
        proof {
            lemma_stretch(all, i as int, end as int, RELATIONAL_BATCH as nat);
        }
        match add_stretch(tx, shard, sql, with_lowest, ids, i, end, span) {
            Err(e) => return Err(e),
            Ok(s) => {
                span = s;
            },
        }
        i = end;
    }
    assert(all.skip(i as int) =~= Seq::<Seq<char>>::empty());
    Ok(span)
}

/// The scan goes on past a row.
pub open spec fn scan_moved(m: MemoryV, q: QueueV, row: i64) -> Kept<()> {
    if row == i64::MAX {
        (m, Err(ErrorV::Storage("claim scan hint overflow"@)))
    } else {
        (hint_advanced(m, q, (row + 1) as i64), Ok(()))
    }
}

pub fn move_scan(memory: &mut DriverMemory, shard: &QueueKey, row: i64) -> (r: EngineResult<()>)
    ensures
        (final(memory)@, outcome(r)) == scan_moved(old(memory)@, shard@, row),
{
    if row == 0x7fff_ffff_ffff_ffff {
        Err(EngineError::Storage("claim scan hint overflow".to_owned()))
    } else {
        memory.advance_hint(shard, row + 1);
        Ok(())
    }
}

/// The scan of a plain queue goes on past the claimed items, if all of them are found and plain;
/// otherwise it starts over.
pub open spec fn advances_scan(m: MemoryV, q: QueueV, ids: Seq<ItemId>) -> Script<Kept<()>> {
    if ids.len() == 0 || !plain(m, q) {
        Script::Done((m, Ok(())))
    } else {
        hold(
            m,
            asks_span(q, SELECT_SCANNED@, false, id_texts(ids)),
            |s: Span|
                Script::Done(
                    if s.seen != ids.len() as i64 || s.rich > 0 {
                        (hint_reset(m, q), Ok::<(), ErrorV>(()))
                    } else {
                        match s.highest {
                            Some(row) => scan_moved(m, q, row),
                            None => (m, Ok(())),
                        }
                    },
                ),
        )
    }
}

pub fn advance_claim_scan_hint_for_ids<T: RelTx>(
    tx: &mut RelSession<T>,
    memory: &mut DriverMemory,
    shard: &QueueKey,
    item_ids: &Vec<ItemId>,
) -> (r: EngineResult<()>)
    ensures
        held(
            old(tx).trace(),
            final(tx).trace(),
            advances_scan(old(memory)@, shard@, item_ids@),
            (final(memory)@, outcome(r)),
        ),
{
    proof {
        lemma_start(tx.trace(), advances_scan(memory@, shard@, item_ids@));
    }
    if item_ids.len() == 0 || !memory.is_fifo(shard) {
        return Ok(());
    }
    let ids = id_strings(item_ids);
    let span = match query_span(tx, shard, SELECT_SCANNED, false, &ids) {
        Err(e) => return Err(e),
        Ok(s) => s,
    };
    if span.seen != item_ids.len() as i64 || span.rich > 0 {
        reset_claim_scan_hint(memory, shard);
        return Ok(());
    }
    match span.highest {
        Some(row) => move_scan(memory, shard, row),
        None => Ok(()),
    }
}

/// The rows that plain items fill without a gap, if they do; where a state is given, all rows of
/// the stretch must be in it.
pub open spec fn asks_range(q: QueueV, ids: Seq<Seq<char>>, state: Option<Seq<char>>) -> Script<
    Result<Option<(i64, i64)>, ErrorV>,
> {
    if ids.len() == 0 {
        Script::Done(Ok(None))
    } else {
        chain(
            asks_span(q, SELECT_SPAN@, true, ids),
            |s: Span|
                if s.seen != ids.len() as i64 || s.rich > 0 || s.lowest is None
                    || s.highest is None {
                    Script::Done(Ok::<Option<(i64, i64)>, ErrorV>(None))
                } else {
                    counts_range(q, s.lowest->Some_0, s.highest->Some_0, ids.len(), state)
                },
        )
    }
}

/// A stretch of rows counts if it holds just that many.
pub open spec fn counts_range(
    q: QueueV,
    low: i64,
    high: i64,
    n: nat,
    state: Option<Seq<char>>,
) -> Script<Result<Option<(i64, i64)>, ErrorV>> {
    chain(
        match state {
            Some(t) => one(
                COUNT_SPAN_IN_STATE@,
                own(q).push(CellV::Integer(low)).push(CellV::Integer(high)).push(CellV::Text(t)),
            ),
            None => one(
                COUNT_SPAN@,
                own(q).push(CellV::Integer(low)).push(CellV::Integer(high)),
            ),
        },
        |row: Seq<CellV>|
            Script::Done(
                match column::<i64>(row, 0) {
                    Err(e) => Err::<Option<(i64, i64)>, ErrorV>(e),
                    Ok(count) => Ok(
                        if count == n as i64 {
                            Some((low, high))
                        } else {
                            None
                        },
                    ),
                },
            ),
    )
}

fn count_range<T: RelTx>(
    tx: &mut RelSession<T>,
    shard: &QueueKey,
    low: i64,
    high: i64,
    n: usize,
    state: Option<&str>,
) -> (r: EngineResult<Option<(i64, i64)>>)
    ensures
        held(
            old(tx).trace(),
            final(tx).trace(),
            counts_range(shard@, low, high, n as nat, str_opt(state)),
            outcome(r),
        ),
{
    proof {
        lemma_start(tx.trace(), counts_range(shard@, low, high, n as nat, str_opt(state)));
    }
    let params = own_params(shard).number(low).number(high);
    let found = match state {
        Some(t) => query_row(tx, COUNT_SPAN_IN_STATE, params.text(t)),
        None => query_row(tx, COUNT_SPAN, params),
    };
    match found {
        Err(e) => Err(e),
        Ok(row) => match row.get::<i64>(0) {
            Err(e) => Err(e),
            Ok(count) => Ok(
                if count == n as i64 {
                    Some((low, high))
                } else {
                    None
                },
            ),
        },
    }
}

pub open spec fn str_opt(t: Option<&str>) -> Option<Seq<char>> {
    match t {
        Some(x) => Some(x@),
        None => None,
    }
}

pub fn fifo_rowid_range_for_id_strings<T: RelTx>(
    tx: &mut RelSession<T>,
    shard: &QueueKey,
    ids: &Vec<String>,
    expected_state: Option<&str>,
) -> (r: EngineResult<Option<(i64, i64)>>)
    ensures
        held(
            old(tx).trace(),
            final(tx).trace(),
            asks_range(shard@, texts(ids@), str_opt(expected_state)),
            outcome(r),
        ),
{
    proof {
        lemma_start(tx.trace(), asks_range(shard@, texts(ids@), str_opt(expected_state)));
    }
    if ids.len() == 0 {
        return Ok(None);
    }
    let span = match query_span(tx, shard, SELECT_SPAN, true, ids) {
        Err(e) => return Err(e),
        Ok(s) => s,
    };
    if span.seen != ids.len() as i64 || span.rich > 0 {
        return Ok(None);
    }
    match (span.lowest, span.highest) {
        (Some(low), Some(high)) => count_range(tx, shard, low, high, ids.len(), expected_state),
        _ => Ok(None),
    }
}

} // verus!
