//! Statements over lists of rows, in stretches that a store can bind.

use crate::relational::exec::{RelSession, RelTx, rel_done};
use crate::relational::script::{Script, all_of, chain, chunks, done, each, fold, group_talk, held, lemma_all_of_step, lemma_all_of_stops, lemma_chunks_step, lemma_start, reached, read};
use crate::relational::value::{CellV, Params, RelRow, column, rows_v, text_cells};
use crate::sql::async_projection::{item_list, with_item_ids};
use crate::text::texts;
use crate::types::{EngineResult, ErrorV, QueueKey, QueueV, outcome};
use vstd::prelude::*;
use vstd::string::*;

verus! {

broadcast use group_talk;

/// A text `n` times, set apart by commas.
pub open spec fn repeated(t: Seq<char>, n: nat) -> Seq<char>
    decreases n,
{
    if n == 0 {
        Seq::empty()
    } else if n == 1 {
        t
    } else {
        repeated(t, (n - 1) as nat) + ","@ + t
    }
}

pub fn repeat(t: &str, n: usize) -> (r: String)
    ensures
        r@ == repeated(t@, n as nat),
{
    let mut out = String::new();
    let mut i: usize = 0;
    assert(out@ =~= Seq::<char>::empty());
    while i < n
        invariant
            i <= n,
            out@ == repeated(t@, i as nat),
        decreases n - i,
    {
        if i > 0 {
            out.append(",");
        }
        out.append(t);
        i = i + 1;
        proof {
            if i == 1 {
                assert(out@ =~= t@);
            }
        }
    }
    out
}

/// A statement over a list in brackets.
pub open spec fn listed(prefix: Seq<char>, n: nat, suffix: Seq<char>) -> Seq<char> {
    prefix.push(' ') + item_list(n) + suffix
}

pub fn list_sql(prefix: &str, n: usize, suffix: &str) -> (r: String)
    ensures
        r@ == listed(prefix@, n as nat, suffix@),
{
    let mut out = with_item_ids(prefix, n);
    out.append(suffix);
    out
}

/// A statement over rows of places.
pub open spec fn valued(prefix: Seq<char>, row: Seq<char>, n: nat, suffix: Seq<char>) -> Seq<char> {
    prefix + repeated(row, n) + suffix
}

pub fn values_sql(prefix: &str, row: &str, n: usize, suffix: &str) -> (r: String)
    ensures
        r@ == valued(prefix@, row@, n as nat, suffix@),
{
    let mut out = prefix.to_owned();
    out.append(repeat(row, n).as_str());
    out.append(suffix);
    out
}

impl Params {
    /// A second list that holds the same.
    pub fn duplicate(&self) -> (r: Params)
        ensures
            r@ == self@,
    {
        let r = Params::new().joined(self);
        assert(Seq::<CellV>::empty() + self@ =~= self@);
        r
    }

    /// These parameters, then others.
    pub fn joined(self, other: &Params) -> (r: Params)
        ensures
            r@ == self@ + other@,
    {
        let ghost start = self@;
        let mut out = self;
        let mut i: usize = 0;
        assert(other@.take(0) =~= Seq::<CellV>::empty());
        assert(out@ =~= start + other@.take(0));
        while i < other.list.len()
            invariant
                i <= other.list@.len(),
                out@ == start + other@.take(i as int),
            decreases other.list@.len() - i,
        {
            out = out.with(other.list[i].duplicate());
            assert(out@ =~= start + other@.take(i as int + 1));
            i = i + 1;
        }
        assert(other@.take(i as int) =~= other@);
        out
    }
}

/// One statement over a stretch of a list.
pub open spec fn over_list(prefix: Seq<char>, lead: Seq<CellV>) -> spec_fn(Seq<Seq<char>>) -> Script<
    Result<(), ErrorV>,
> {
    |chunk: Seq<Seq<char>>|
        done(listed(prefix, chunk.len(), Seq::empty()), lead + text_cells(chunk))
}

/// A statement over a list, in stretches.
pub open spec fn runs_in(
    prefix: Seq<char>,
    lead: Seq<CellV>,
    list: Seq<Seq<char>>,
    size: nat,
) -> Script<Result<(), ErrorV>> {
    each(chunks(list, size), over_list(prefix, lead))
}

/// The end of the stretch that starts at a place.
pub(crate) fn stretch_end(from: usize, len: usize, size: usize) -> (r: usize)
    requires
        from < len,
        size > 0,
    ensures
        r == (if len - from <= size {
            len
        } else {
            (from + size) as usize
        }),
        from < r <= len,
{
    if len - from <= size {
        len
    } else {
        from + size
    }
}

/// The next stretch of a list, and what stands after it.
pub proof fn lemma_stretch<A>(all: Seq<A>, from: int, end: int, size: nat)
    requires
        0 <= from < all.len(),
        size > 0,
        end == (if all.len() - from <= size {
            all.len() as int
        } else {
            from + size
        }),
    ensures
        chunks(all.skip(from), size).len() > 0,
        chunks(all.skip(from), size)[0] == all.subrange(from, end),
        chunks(all.skip(from), size).drop_first() == chunks(all.skip(end), size),
{
    let rest = all.skip(from);
    lemma_chunks_step(rest, size);
    assert(rest.take(end - from) =~= all.subrange(from, end));
    assert(rest.skip(end - from) =~= all.skip(end));
}

/// Runs a statement over a list of texts.
pub fn run_listed<T: RelTx>(
    tx: &mut RelSession<T>,
    prefix: &str,
    lead: &Params,
    list: &Vec<String>,
    size: usize,
) -> (r: EngineResult<()>)
    requires
        size > 0,
    ensures
        held(
            old(tx).trace(),
            final(tx).trace(),
            runs_in(prefix@, lead@, texts(list@), size as nat),
            outcome(r),
        ),
{
    let ghost all = texts(list@);
    let ghost f = over_list(prefix@, lead@);
    let ghost prog = runs_in(prefix@, lead@, all, size as nat);
    let ghost start = tx.trace();
    let n = list.len();
    let mut i: usize = 0;
    proof {
        lemma_start(start, prog);
        assert(all.skip(0) =~= all);
    }
    while i < n
        invariant
            i <= n,
            n == all.len(),
            n == list@.len(),
            size > 0,
            all == texts(list@),
            start == old(tx).trace(),
            f == over_list(prefix@, lead@),
            prog == runs_in(prefix@, lead@, all, size as nat),
            reached(start, tx.trace(), prog, each(chunks(all.skip(i as int), size as nat), f)),
        decreases n - i,
    {
        let end = stretch_end(i, n, size);
        proof {
            lemma_stretch(all, i as int, end as int, size as nat);
            assert(all.subrange(i as int, end as int).len() == end - i);
        }
        let sql = list_sql(prefix, end - i, "");
        assert(""@ =~= Seq::<char>::empty()) by {
            reveal_strlit("");
        }
        match rel_done(tx, sql.as_str(), lead.duplicate().texts(list, i, end)) {
            Err(e) => return Err(e),
            Ok(_) => {},
        }
        i = end;
    }
    assert(all.skip(i as int) =~= Seq::<Seq<char>>::empty());
    Ok(())
}

/// The most items that one statement names.
pub const ITEMS_PER_STATEMENT: usize = 256;

/// Runs a statement on the named items of a queue, once for each stretch of them. The parameters before
/// the list are those given, then the queue's own.
pub fn exec_items_in<T: RelTx>(
    tx: &mut RelSession<T>,
    prefix: &str,
    lead: Params,
    shard: &QueueKey,
    ids: &Vec<String>,
) -> (r: EngineResult<()>)
    ensures
        held(
            old(tx).trace(),
            final(tx).trace(),
            on_items(prefix@, lead@, shard@, texts(ids@)),
            outcome(r),
        ),
{
    let lead = lead.text(shard.tenant_id.as_str()).text(shard.queue_id.as_str());
    run_listed(tx, prefix, &lead, ids, ITEMS_PER_STATEMENT)
}

/// A statement on the named items of a queue.
pub open spec fn on_items(
    prefix: Seq<char>,
    lead: Seq<CellV>,
    q: QueueV,
    ids: Seq<Seq<char>>,
) -> Script<Result<(), ErrorV>> {
    runs_in(
        prefix,
        lead.push(CellV::Text(q.tenant_id)).push(CellV::Text(q.queue_id)),
        ids,
        ITEMS_PER_STATEMENT as nat,
    )
}

/// The cells of rows, one row after the other.
pub open spec fn flat(rows: Seq<Seq<CellV>>) -> Seq<CellV>
    decreases rows.len(),
{
    if rows.len() == 0 {
        Seq::empty()
    } else {
        flat(rows.drop_last()) + rows.last()
    }
}

pub open spec fn params_v(rows: Seq<Params>) -> Seq<Seq<CellV>> {
    rows.map_values(|p: Params| p@)
}

/// One statement over a stretch of rows.
pub open spec fn over_rows(
    prefix: Seq<char>,
    row: Seq<char>,
    suffix: Seq<char>,
    tail: Seq<CellV>,
) -> spec_fn(Seq<Seq<CellV>>) -> Script<Result<(), ErrorV>> {
    |chunk: Seq<Seq<CellV>>| done(valued(prefix, row, chunk.len(), suffix), flat(chunk) + tail)
}

/// A statement over rows, in stretches.
pub open spec fn rows_in(
    prefix: Seq<char>,
    row: Seq<char>,
    suffix: Seq<char>,
    rows: Seq<Seq<CellV>>,
    tail: Seq<CellV>,
    size: nat,
) -> Script<Result<(), ErrorV>> {
    each(chunks(rows, size), over_rows(prefix, row, suffix, tail))
}

/// The cells of a stretch of rows.
pub(crate) fn flatten_rows(rows: &Vec<Params>, from: usize, to: usize) -> (r: Params)
    requires
        from <= to <= rows@.len(),
    ensures
        r@ == flat(params_v(rows@).subrange(from as int, to as int)),
{
    let ghost all = params_v(rows@);
    let mut out = Params::new();
    let mut i: usize = from;
    assert(all.subrange(from as int, from as int) =~= Seq::<Seq<CellV>>::empty());
    while i < to
        invariant
            from <= i <= to <= rows@.len(),
            all == params_v(rows@),
            out@ == flat(all.subrange(from as int, i as int)),
        decreases to - i,
    {
        proof {
            let s = all.subrange(from as int, i as int + 1);
            assert(s.drop_last() =~= all.subrange(from as int, i as int));
            assert(s.last() == rows@[i as int]@);
        }
        out = out.joined(&rows[i]);
        i = i + 1;
    }
    out
}

/// Runs a statement over rows of parameters.
pub fn run_rows<T: RelTx>(
    tx: &mut RelSession<T>,
    prefix: &str,
    row: &str,
    suffix: &str,
    rows: &Vec<Params>,
    tail: &Params,
    size: usize,
) -> (r: EngineResult<()>)
    requires
        size > 0,
    ensures
        held(
            old(tx).trace(),
            final(tx).trace(),
            rows_in(prefix@, row@, suffix@, params_v(rows@), tail@, size as nat),
            outcome(r),
        ),
{
    let ghost all = params_v(rows@);
    let ghost f = over_rows(prefix@, row@, suffix@, tail@);
    let ghost prog = rows_in(prefix@, row@, suffix@, all, tail@, size as nat);
    let ghost start = tx.trace();
    let n = rows.len();
    let mut i: usize = 0;
    proof {
        lemma_start(start, prog);
        assert(all.skip(0) =~= all);
    }
    while i < n
        invariant
            i <= n,
            n == all.len(),
            n == rows@.len(),
            size > 0,
            all == params_v(rows@),
            start == old(tx).trace(),
            f == over_rows(prefix@, row@, suffix@, tail@),
            prog == rows_in(prefix@, row@, suffix@, all, tail@, size as nat),
            reached(start, tx.trace(), prog, each(chunks(all.skip(i as int), size as nat), f)),
        decreases n - i,
    {
        let end = stretch_end(i, n, size);
        proof {
            lemma_stretch(all, i as int, end as int, size as nat);
            assert(all.subrange(i as int, end as int).len() == end - i);
        }
        let sql = values_sql(prefix, row, end - i, suffix);
        match rel_done(tx, sql.as_str(), flatten_rows(rows, i, end).joined(tail)) {
            Err(e) => return Err(e),
            Ok(_) => {},
        }
        i = end;
    }
    assert(all.skip(i as int) =~= Seq::<Seq<CellV>>::empty());
    Ok(())
}

/// A value that can be read from a row.
pub trait FromRow: Sized {
    type V;

    spec fn content(&self) -> Self::V;

    /// What a row is read as.
    spec fn row_reading(row: Seq<CellV>) -> Result<Self::V, ErrorV>;

    fn from_row(row: &RelRow) -> (r: EngineResult<Self>)
        ensures
            match r {
                Ok(x) => Self::row_reading(row@) == Ok::<Self::V, ErrorV>(x.content()),
                Err(e) => Self::row_reading(row@) == Err::<Self::V, ErrorV>(e@),
            },
    ;
}

/// Values by what they hold.
pub open spec fn contents<R: FromRow>(v: Seq<R>) -> Seq<R::V> {
    v.map_values(|x: R| x.content())
}

pub open spec fn row_reader<R: FromRow>() -> spec_fn(Seq<CellV>) -> Result<R::V, ErrorV> {
    |row: Seq<CellV>| R::row_reading(row)
}

/// Rows read one by one.
pub open spec fn read_rows<R: FromRow>(rows: Seq<Seq<CellV>>) -> Result<Seq<R::V>, ErrorV> {
    all_of(rows, row_reader::<R>())
}

pub open spec fn contents_outcome<R: FromRow>(r: EngineResult<Vec<R>>) -> Result<
    Seq<R::V>,
    ErrorV,
> {
    match r {
        Ok(v) => Ok(contents(v@)),
        Err(e) => Err(e@),
    }
}

pub fn decode_rows<R: FromRow>(rows: &Vec<RelRow>) -> (r: EngineResult<Vec<R>>)
    ensures
        contents_outcome(r) == read_rows::<R>(rows_v(rows@)),
{
    let ghost all = rows_v(rows@);
    let mut out: Vec<R> = Vec::new();
    let mut i: usize = 0;
    assert(all.take(0) =~= Seq::<Seq<CellV>>::empty());
    assert(contents(out@) =~= Seq::<R::V>::empty());
    while i < rows.len()
        invariant
            i <= rows@.len(),
            all == rows_v(rows@),
            read_rows::<R>(all.take(i as int)) == Ok::<Seq<R::V>, ErrorV>(contents(out@)),
        decreases rows@.len() - i,
    {
        proof {
            lemma_all_of_step(all, row_reader::<R>(), i as int);
            assert(all[i as int] == rows@[i as int]@);
        }
        match R::from_row(&rows[i]) {
            Err(e) => {
                proof {
                    lemma_all_of_stops(all, row_reader::<R>(), i as int + 1, e@);
                }
                return Err(e);
            },
            Ok(x) => {
                let ghost before = out@;
                out.push(x);
                assert(contents(out@) =~= contents(before).push(x.content()));
            },
        }
        i = i + 1;
    }
    assert(all.take(i as int) =~= all);
    Ok(out)
}

/// A reading, taken row by row.
pub open spec fn reads<R: FromRow>(sql: Seq<char>, params: Seq<CellV>) -> Script<
    Result<Seq<R::V>, ErrorV>,
> {
    chain(read(sql, params), |rows: Seq<Seq<CellV>>| Script::Done(read_rows::<R>(rows)))
}

pub fn query_rows<T: RelTx, R: FromRow>(tx: &mut RelSession<T>, sql: &str, params: Params) -> (r:
    EngineResult<Vec<R>>)
    ensures
        held(old(tx).trace(), final(tx).trace(), reads::<R>(sql@, params@), contents_outcome(r)),
{
    proof {
        lemma_start(tx.trace(), reads::<R>(sql@, params@));
    }
    match tx.query(sql, &params) {
        Err(e) => Err(e),
        Ok(rows) => decode_rows(&rows),
    }
}

/// What one stretch of a list adds to a reading.
pub open spec fn over_read<R: FromRow>(
    prefix: Seq<char>,
    suffix: Seq<char>,
    lead: Seq<CellV>,
) -> spec_fn(Seq<R::V>, Seq<Seq<char>>) -> Script<Result<Seq<R::V>, ErrorV>> {
    |done: Seq<R::V>, chunk: Seq<Seq<char>>|
        chain(
            reads::<R>(listed(prefix, chunk.len(), suffix), lead + text_cells(chunk)),
            |found: Seq<R::V>| Script::Done(Ok::<Seq<R::V>, ErrorV>(done + found)),
        )
}

/// A reading over a list, in stretches.
pub open spec fn reads_in<R: FromRow>(
    prefix: Seq<char>,
    suffix: Seq<char>,
    lead: Seq<CellV>,
    list: Seq<Seq<char>>,
    size: nat,
) -> Script<Result<Seq<R::V>, ErrorV>> {
    fold(chunks(list, size), Seq::<R::V>::empty(), over_read::<R>(prefix, suffix, lead))
}

/// Adds what was found to what there is.
fn extend<R: FromRow>(out: &mut Vec<R>, found: Vec<R>)
    ensures
        contents(final(out)@) == contents(old(out)@) + contents(found@),
{
    let ghost start = out@;
    let mut found = found;
    let ghost all = found@;
    out.append(&mut found);
    assert(contents(out@) =~= contents(start) + contents(all));
}

/// Reads over a list of texts.
pub fn query_listed<T: RelTx, R: FromRow>(
    tx: &mut RelSession<T>,
    prefix: &str,
    suffix: &str,
    lead: &Params,
    list: &Vec<String>,
    size: usize,
) -> (r: EngineResult<Vec<R>>)
    requires
        size > 0,
    ensures
        held(
            old(tx).trace(),
            final(tx).trace(),
            reads_in::<R>(prefix@, suffix@, lead@, texts(list@), size as nat),
            contents_outcome(r),
        ),
{
    let ghost all = texts(list@);
    let ghost f = over_read::<R>(prefix@, suffix@, lead@);
    let ghost prog = reads_in::<R>(prefix@, suffix@, lead@, all, size as nat);
    let ghost start = tx.trace();
    let n = list.len();
    let mut out: Vec<R> = Vec::new();
    let mut i: usize = 0;
    proof {
        lemma_start(start, prog);
        assert(all.skip(0) =~= all);
        assert(contents(out@) =~= Seq::<R::V>::empty());
    }
    while i < n
        invariant
            i <= n,
            n == all.len(),
            n == list@.len(),
            size > 0,
            all == texts(list@),
            start == old(tx).trace(),
            f == over_read::<R>(prefix@, suffix@, lead@),
            prog == reads_in::<R>(prefix@, suffix@, lead@, all, size as nat),
            reached(
                start,
                tx.trace(),
                prog,
                fold(chunks(all.skip(i as int), size as nat), contents(out@), f),
            ),
        decreases n - i,
    {
        let end = stretch_end(i, n, size);
        proof {
            lemma_stretch(all, i as int, end as int, size as nat);
            assert(all.subrange(i as int, end as int).len() == end - i);
        }
        let found = read_stretch::<T, R>(
            tx,
            prefix,
            suffix,
            lead,
            list,
            i,
            end,
            Ghost(contents(out@)),
        );
        match found {
            Err(e) => return Err(e),
            Ok(rows) => extend(&mut out, rows),
        }
        i = end;
    }
    assert(all.skip(i as int) =~= Seq::<Seq<char>>::empty());
    Ok(out)
}

fn read_stretch<T: RelTx, R: FromRow>(
    tx: &mut RelSession<T>,
    prefix: &str,
    suffix: &str,
    lead: &Params,
    list: &Vec<String>,
    from: usize,
    to: usize,
    Ghost(done): Ghost<Seq<R::V>>,
) -> (r: EngineResult<Vec<R>>)
    requires
        from <= to <= list@.len(),
    ensures
        held(
            old(tx).trace(),
            final(tx).trace(),
            over_read::<R>(prefix@, suffix@, lead@)(
                done,
                texts(list@).subrange(from as int, to as int),
            ),
            (match r {
                Ok(v) => Ok(done + contents(v@)),
                Err(e) => Err(e@),
            }),
        ),
{
    proof {
        lemma_start(
            tx.trace(),
            over_read::<R>(prefix@, suffix@, lead@)(
                done,
                texts(list@).subrange(from as int, to as int),
            ),
        );
        assert(texts(list@).subrange(from as int, to as int).len() == to - from);
    }
    let sql = list_sql(prefix, to - from, suffix);
    query_rows::<T, R>(tx, sql.as_str(), lead.duplicate().texts(list, from, to))
}

/// A row of one text.
pub struct TextRow(pub String);

impl FromRow for TextRow {
    type V = Seq<char>;

    open spec fn content(&self) -> Seq<char> {
        self.0@
    }

    open spec fn row_reading(row: Seq<CellV>) -> Result<Seq<char>, ErrorV> {
        column::<String>(row, 0)
    }

    fn from_row(row: &RelRow) -> (r: EngineResult<TextRow>) {
        match row.get::<String>(0) {
            Err(e) => Err(e),
            Ok(t) => Ok(TextRow(t)),
        }
    }
}

} // verus!
