//! One session with a relational store. What is said to it goes on record.

use crate::json::Json;
use crate::relational::script::{Exchange, Reply, Said, Script, after, chain, done, group_talk, held, lemma_start, reached, read, read_priority, run, write_document, write_metadata, write_priority};
use crate::relational::value::{CellV, Params, RelRow, RelValue, rows_v};
use crate::types::{EngineError, EngineResult, ErrorV, Metadata, PriorityV, PriorityValue, metadata_of, outcome};
use vstd::prelude::*;

verus! {

broadcast use group_talk;

/// A transactional store of tables. The drivers implement it.
pub trait RelTx {
    fn execute(&self, sql: &str, params: &Vec<RelValue>) -> EngineResult<usize>;

    fn query(&self, sql: &str, params: &Vec<RelValue>) -> EngineResult<Vec<RelRow>>;
}

/// How a store writes an item's values down in its text columns.
pub trait RelCodec {
    fn metadata_text(&self, metadata: &Metadata) -> EngineResult<String>;

    fn document_text(&self, document: &Json) -> EngineResult<String>;

    fn priority_text(&self, priority: &PriorityValue) -> EngineResult<String>;

    fn priority_of(&self, text: &str) -> EngineResult<PriorityValue>;
}

/// A session with a store, and the record of what was said and answered in it. Nothing goes on record
/// that was not said to the store and answered by it.
pub struct RelSession<'a, T: RelTx> {
    tx: &'a T,
    record: Ghost<Seq<Exchange>>,
}

pub open spec fn rows_outcome(r: EngineResult<Vec<RelRow>>) -> Result<Seq<Seq<CellV>>, ErrorV> {
    match r {
        Ok(rows) => Ok(rows_v(rows@)),
        Err(e) => Err(e@),
    }
}

pub open spec fn text_outcome(r: EngineResult<String>) -> Result<Seq<char>, ErrorV> {
    match r {
        Ok(t) => Ok(t@),
        Err(e) => Err(e@),
    }
}

pub open spec fn priority_outcome(r: EngineResult<PriorityValue>) -> Result<PriorityV, ErrorV> {
    match r {
        Ok(p) => Ok(p@),
        Err(e) => Err(e@),
    }
}

/// An exchange over rows that a store took part in: it was called with this statement and these
/// parameters, and this is what it returned.
pub open spec fn took_part<T: RelTx>(store: &T, x: Exchange) -> bool {
    match x.said {
        Said::Run(sql, cells) => exists|q: &str, p: Params, r: EngineResult<usize>|
            #[trigger] call_ensures(T::execute, (store, q, &p.list), r) && q@ == sql && p@ == cells
                && x.reply == Reply::Count(outcome(r)),
        Said::Read(sql, cells) => exists|q: &str, p: Params, r: EngineResult<Vec<RelRow>>|
            #[trigger] call_ensures(T::query, (store, q, &p.list), r) && q@ == sql && p@ == cells
                && x.reply == Reply::Rows(rows_outcome(r)),
        _ => true,
    }
}

proof fn lemma_one<T>(t: Seq<Exchange>, s: Said, f: spec_fn(Reply) -> Script<T>, r: Reply, a: T)
    requires
        f(r) == Script::Done(a),
    ensures
        held(t, t.push(Exchange { said: s, reply: r }), Script::Ask(s, f), a),
{
    reveal(reached);
    let u = t.push(Exchange { said: s, reply: r });
    assert(u.take(t.len() as int) =~= t);
    let d = u.skip(t.len() as int);
    assert(d.len() == 1 && d[0] == (Exchange { said: s, reply: r }));
    assert(d.drop_first() =~= Seq::<Exchange>::empty());
    reveal_with_fuel(after, 2);
}

/// One question and its answer are a reading.
pub proof fn lemma_read_once(t: Seq<Exchange>, sql: Seq<char>, params: Seq<CellV>, rows: Seq<Seq<CellV>>)
    ensures
        held(
            t,
            t.push(Exchange { said: Said::Read(sql, params), reply: Reply::Rows(Ok(rows)) }),
            read(sql, params),
            Ok::<Seq<Seq<CellV>>, ErrorV>(rows),
        ),
{
    reveal(read);
    lemma_one(
        t,
        Said::Read(sql, params),
        |x: Reply| Script::Done(x->Rows_0),
        Reply::Rows(Ok(rows)),
        Ok::<Seq<Seq<CellV>>, ErrorV>(rows),
    );
}

impl<'a, T: RelTx> RelSession<'a, T> {
    /// Every statement on record was put to the store, which answered it so.
    #[verifier::type_invariant]
    pub open spec fn genuine(&self) -> bool {
        forall|i: int|
            0 <= i < self.trace().len() ==> took_part(self.store(), #[trigger] self.trace()[i])
    }

    /// The store.
    pub closed spec fn store(&self) -> &'a T {
        self.tx
    }

    /// What was said and answered so far.
    pub closed spec fn trace(&self) -> Seq<Exchange> {
        self.record@
    }

    pub fn new(tx: &'a T) -> (r: RelSession<'a, T>)
        ensures
            r.store() == tx,
            r.trace() == Seq::<Exchange>::empty(),
    {
        RelSession { tx, record: Ghost(Seq::empty()) }
    }

    pub fn execute(&mut self, sql: &str, params: &Params) -> (r: EngineResult<usize>)
        ensures
            call_ensures(T::execute, (old(self).store(), sql, &params.list), r),
            final(self).store() == old(self).store(),
            final(self).genuine(),
            held(old(self).trace(), final(self).trace(), run(sql@, params@), outcome(r)),
    {
        proof {
            use_type_invariant(&*self);
            assert(self.trace() == self.record@);
        }
        let r = self.tx.execute(sql, &params.list);
        proof {
            reveal(run);
            let s = Said::Run(sql@, params@);
            let f = |x: Reply| Script::Done(x->Count_0);
            lemma_one(self.record@, s, f, Reply::Count(outcome(r)), outcome(r));
            self.record@ = self.record@.push(Exchange { said: s, reply: Reply::Count(outcome(r)) });
        }
        r
    }

    pub fn query(&mut self, sql: &str, params: &Params) -> (r: EngineResult<Vec<RelRow>>)
        ensures
            call_ensures(T::query, (old(self).store(), sql, &params.list), r),
            final(self).store() == old(self).store(),
            final(self).genuine(),
            held(old(self).trace(), final(self).trace(), read(sql@, params@), rows_outcome(r)),
    {
        proof {
            use_type_invariant(&*self);
            assert(self.trace() == self.record@);
        }
        let r = self.tx.query(sql, &params.list);
        proof {
            reveal(read);
            let s = Said::Read(sql@, params@);
            let f = |x: Reply| Script::Done(x->Rows_0);
            lemma_one(self.record@, s, f, Reply::Rows(rows_outcome(r)), rows_outcome(r));
            self.record@ = self.record@.push(
                Exchange { said: s, reply: Reply::Rows(rows_outcome(r)) },
            );
        }
        r
    }
}

impl<'a, T: RelTx + RelCodec> RelSession<'a, T> {
    pub fn metadata_text(&mut self, metadata: &Metadata) -> (r: EngineResult<String>)
        ensures
            call_ensures(T::metadata_text, (old(self).store(), metadata), r),
            final(self).store() == old(self).store(),
            final(self).genuine(),
            held(
                old(self).trace(),
                final(self).trace(),
                write_metadata(metadata_of(*metadata)),
                text_outcome(r),
            ),
    {
        proof {
            use_type_invariant(&*self);
            assert(self.trace() == self.record@);
        }
        let r = self.tx.metadata_text(metadata);
        proof {
            let s = Said::Metadata(metadata_of(*metadata));
            let f = |x: Reply| Script::Done(x->Text_0);
            lemma_one(self.record@, s, f, Reply::Text(text_outcome(r)), text_outcome(r));
            self.record@ = self.record@.push(
                Exchange { said: s, reply: Reply::Text(text_outcome(r)) },
            );
        }
        r
    }

    pub fn document_text(&mut self, document: &Json) -> (r: EngineResult<String>)
        ensures
            call_ensures(T::document_text, (old(self).store(), document), r),
            final(self).store() == old(self).store(),
            final(self).genuine(),
            held(
                old(self).trace(),
                final(self).trace(),
                write_document(document@),
                text_outcome(r),
            ),
    {
        proof {
            use_type_invariant(&*self);
            assert(self.trace() == self.record@);
        }
        let r = self.tx.document_text(document);
        proof {
            let s = Said::Document(document@);
            let f = |x: Reply| Script::Done(x->Text_0);
            lemma_one(self.record@, s, f, Reply::Text(text_outcome(r)), text_outcome(r));
            self.record@ = self.record@.push(
                Exchange { said: s, reply: Reply::Text(text_outcome(r)) },
            );
        }
        r
    }

    pub fn priority_text(&mut self, priority: &PriorityValue) -> (r: EngineResult<String>)
        ensures
            call_ensures(T::priority_text, (old(self).store(), priority), r),
            final(self).store() == old(self).store(),
            final(self).genuine(),
            held(
                old(self).trace(),
                final(self).trace(),
                write_priority(priority@),
                text_outcome(r),
            ),
    {
        proof {
            use_type_invariant(&*self);
            assert(self.trace() == self.record@);
        }
        let r = self.tx.priority_text(priority);
        proof {
            let s = Said::Priority(priority@);
            let f = |x: Reply| Script::Done(x->Text_0);
            lemma_one(self.record@, s, f, Reply::Text(text_outcome(r)), text_outcome(r));
            self.record@ = self.record@.push(
                Exchange { said: s, reply: Reply::Text(text_outcome(r)) },
            );
        }
        r
    }

    pub fn priority_of(&mut self, text: &str) -> (r: EngineResult<PriorityValue>)
        ensures
            call_ensures(T::priority_of, (old(self).store(), text), r),
            final(self).store() == old(self).store(),
            final(self).genuine(),
            held(
                old(self).trace(),
                final(self).trace(),
                read_priority(text@),
                priority_outcome(r),
            ),
    {
        proof {
            use_type_invariant(&*self);
            assert(self.trace() == self.record@);
        }
        let r = self.tx.priority_of(text);
        proof {
            let s = Said::PriorityText(text@);
            let f = |x: Reply| Script::Done(x->Priority_0);
            lemma_one(self.record@, s, f, Reply::Priority(priority_outcome(r)), priority_outcome(r));
            self.record@ = self.record@.push(
                Exchange { said: s, reply: Reply::Priority(priority_outcome(r)) },
            );
        }
        r
    }
}

/// A statement that changes rows; the outcome is how many.
pub fn rel_exec<T: RelTx>(tx: &mut RelSession<T>, sql: &str, params: Params) -> (r: EngineResult<
    usize,
>)
    ensures
        call_ensures(T::execute, (old(tx).store(), sql, &params.list), r),
        final(tx).store() == old(tx).store(),
        final(tx).genuine(),
        held(old(tx).trace(), final(tx).trace(), run(sql@, params@), outcome(r)),
{
    tx.execute(sql, &params)
}

/// A statement that reads rows.
pub fn rel_query<T: RelTx>(tx: &mut RelSession<T>, sql: &str, params: Params) -> (r: EngineResult<
    Vec<RelRow>,
>)
    ensures
        call_ensures(T::query, (old(tx).store(), sql, &params.list), r),
        final(tx).store() == old(tx).store(),
        final(tx).genuine(),
        held(old(tx).trace(), final(tx).trace(), read(sql@, params@), rows_outcome(r)),
{
    tx.query(sql, &params)
}

/// A statement that changes rows, however many.
pub fn rel_done<T: RelTx>(tx: &mut RelSession<T>, sql: &str, params: Params) -> (r: EngineResult<()>)
    ensures
        final(tx).store() == old(tx).store(),
        final(tx).genuine(),
        held(old(tx).trace(), final(tx).trace(), done(sql@, params@), outcome(r)),
{
    proof {
        lemma_start(tx.trace(), done(sql@, params@));
    }
    match tx.execute(sql, &params) {
        Ok(_) => Ok(()),
        Err(e) => Err(e),
    }
}

pub open spec fn row_outcome(r: EngineResult<RelRow>) -> Result<Seq<CellV>, ErrorV> {
    match r {
        Ok(row) => Ok(row@),
        Err(e) => Err(e@),
    }
}

pub open spec fn opt_row_outcome(r: EngineResult<Option<RelRow>>) -> Result<
    Option<Seq<CellV>>,
    ErrorV,
> {
    match r {
        Ok(Some(row)) => Ok(Some(row@)),
        Ok(None) => Ok(None),
        Err(e) => Err(e@),
    }
}

/// The first row of a reading, if there is one.
pub open spec fn first(sql: Seq<char>, params: Seq<CellV>) -> Script<
    Result<Option<Seq<CellV>>, ErrorV>,
> {
    chain(
        read(sql, params),
        |rows: Seq<Seq<CellV>>|
            Script::Done(
                Ok::<Option<Seq<CellV>>, ErrorV>(
                    if rows.len() > 0 {
                        Some(rows[0])
                    } else {
                        None
                    },
                ),
            ),
    )
}

/// The first row of a reading that must have one.
pub open spec fn one(sql: Seq<char>, params: Seq<CellV>) -> Script<Result<Seq<CellV>, ErrorV>> {
    chain(
        read(sql, params),
        |rows: Seq<Seq<CellV>>|
            Script::Done(
                if rows.len() > 0 {
                    Ok::<Seq<CellV>, ErrorV>(rows[0])
                } else {
                    Err(ErrorV::Storage("query returned no rows"@))
                },
            ),
    )
}

/// The first row of a reading that must have one.
pub fn query_row<T: RelTx>(tx: &mut RelSession<T>, sql: &str, params: Params) -> (r: EngineResult<
    RelRow,
>)
    ensures
        final(tx).store() == old(tx).store(),
        final(tx).genuine(),
        held(old(tx).trace(), final(tx).trace(), one(sql@, params@), row_outcome(r)),
{
    proof {
        lemma_start(tx.trace(), one(sql@, params@));
    }
    match tx.query(sql, &params) {
        Err(e) => Err(e),
        Ok(mut rows) => if rows.len() > 0 {
            let ghost all = rows@;
            let row = rows.remove(0);
            assert(rows_v(all)[0] == row@);
            Ok(row)
        } else {
            Err(EngineError::Storage("query returned no rows".to_owned()))
        },
    }
}

/// The first row of a reading, if there is one.
pub fn query_optional<T: RelTx>(tx: &mut RelSession<T>, sql: &str, params: Params) -> (r:
    EngineResult<Option<RelRow>>)
    ensures
        final(tx).store() == old(tx).store(),
        final(tx).genuine(),
        held(old(tx).trace(), final(tx).trace(), first(sql@, params@), opt_row_outcome(r)),
{
    proof {
        lemma_start(tx.trace(), first(sql@, params@));
    }
    match tx.query(sql, &params) {
        Err(e) => Err(e),
        Ok(mut rows) => if rows.len() > 0 {
            let ghost all = rows@;
            let row = rows.remove(0);
            assert(rows_v(all)[0] == row@);
            Ok(Some(row))
        } else {
            Ok(None)
        },
    }
}

} // verus!
