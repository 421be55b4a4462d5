//! Conversations with a store as values: what is said, and how each reply leads on.

use crate::json::JsonV;
use crate::relational::value::CellV;
use crate::types::{ErrorV, Metadata, PriorityV};
use vstd::prelude::*;

verus! {

/// Something said to a store.
pub ghost enum Said {
    /// A statement that changes rows, with its parameters.
    Run(Seq<char>, Seq<CellV>),
    /// A statement that reads rows, with its parameters.
    Read(Seq<char>, Seq<CellV>),
    /// Write metadata down.
    Metadata(Map<Seq<char>, JsonV>),
    /// Write a document down.
    Document(JsonV),
    /// Write a priority down.
    Priority(PriorityV),
    /// Read a priority that was written down.
    PriorityText(Seq<char>),
}

/// What a store answers.
pub ghost enum Reply {
    Count(Result<usize, ErrorV>),
    Rows(Result<Seq<Seq<CellV>>, ErrorV>),
    Text(Result<Seq<char>, ErrorV>),
    Priority(Result<PriorityV, ErrorV>),
}

pub ghost struct Exchange {
    pub said: Said,
    pub reply: Reply,
}

/// A conversation to be held: what is said next, and what each reply leads to.
#[verifier::reject_recursive_types(T)]
pub ghost enum Script<T> {
    Done(T),
    Ask(Said, spec_fn(Reply) -> Script<T>),
}

/// One conversation after another.
#[verifier::opaque]
pub open spec fn bind<A, B>(m: Script<A>, k: spec_fn(A) -> Script<B>) -> Script<B>
    decreases m,
{
    match m {
        Script::Done(a) => k(a),
        Script::Ask(s, f) => Script::Ask(s, |r: Reply| bind(f(r), k)),
    }
}

/// A conversation that goes on unless the first part fails.
pub open spec fn chain<A, B>(
    m: Script<Result<A, ErrorV>>,
    k: spec_fn(A) -> Script<Result<B, ErrorV>>,
) -> Script<Result<B, ErrorV>> {
    bind(
        m,
        |r: Result<A, ErrorV>|
            match r {
                Ok(a) => k(a),
                Err(e) => Script::Done(Err::<B, ErrorV>(e)),
            },
    )
}

/// What is left of a conversation after some exchanges, if they belong to it.
pub open spec fn after<T>(m: Script<T>, t: Seq<Exchange>) -> Option<Script<T>>
    decreases t.len(),
{
    if t.len() == 0 {
        Some(m)
    } else {
        match m {
            Script::Done(_) => None,
            Script::Ask(s, f) => if t[0].said == s {
                after(f(t[0].reply), t.drop_first())
            } else {
                None
            },
        }
    }
}

/// Between two records of exchanges the first conversation was held, up to the second.
#[verifier::opaque]
pub open spec fn reached<T>(
    before: Seq<Exchange>,
    now: Seq<Exchange>,
    m: Script<T>,
    rest: Script<T>,
) -> bool {
    &&& before.len() <= now.len()
    &&& now.take(before.len() as int) == before
    &&& after(m, now.skip(before.len() as int)) == Some(rest)
}

/// A conversation was held to its end, with this outcome.
pub open spec fn held<T>(before: Seq<Exchange>, now: Seq<Exchange>, m: Script<T>, a: T) -> bool {
    reached(before, now, m, Script::Done(a))
}

pub proof fn lemma_start<T>(t: Seq<Exchange>, m: Script<T>)
    ensures
        reached(t, t, m, m),
{
    reveal(reached);
    assert(t.take(t.len() as int) =~= t);
    assert(t.skip(t.len() as int) =~= Seq::<Exchange>::empty());
}

proof fn lemma_after_bind<A, B>(m: Script<A>, k: spec_fn(A) -> Script<B>, t: Seq<Exchange>, a: A)
    requires
        after(m, t) == Some(Script::Done(a)),
    ensures
        after(bind(m, k), t) == Some(k(a)),
    decreases t.len(),
{
    reveal(bind);
    if t.len() > 0 {
        let f = m->Ask_1;
        lemma_after_bind(f(t[0].reply), k, t.drop_first(), a);
    }
}

proof fn lemma_after_concat<T>(m: Script<T>, t: Seq<Exchange>, u: Seq<Exchange>, n: Script<T>)
    requires
        after(m, t) == Some(n),
    ensures
        after(m, t + u) == after(n, u),
    decreases t.len(),
{
    if t.len() == 0 {
        assert(t + u =~= u);
    } else {
        let f = m->Ask_1;
        assert((t + u)[0] == t[0]);
        assert((t + u).drop_first() =~= t.drop_first() + u);
        lemma_after_concat(f(t[0].reply), t.drop_first(), u, n);
    }
}

/// A part that was held to its end takes the whole to what follows it.
pub broadcast proof fn lemma_onward<A, B>(
    t0: Seq<Exchange>,
    t1: Seq<Exchange>,
    t2: Seq<Exchange>,
    m: Script<B>,
    g: Script<A>,
    k: spec_fn(A) -> Script<B>,
    a: A,
)
    requires
        #[trigger] reached(t0, t1, m, bind(g, k)),
        #[trigger] reached(t1, t2, g, Script::Done(a)),
    ensures
        reached(t0, t2, m, k(a)),
{
    reveal(reached);
    let d1 = t1.skip(t0.len() as int);
    let d2 = t2.skip(t1.len() as int);
    assert(t2.take(t0.len() as int) =~= t1.take(t0.len() as int)) by {
        assert(t2.take(t1.len() as int).take(t0.len() as int) =~= t2.take(t0.len() as int));
    }
    assert(t2.skip(t0.len() as int) =~= d1 + d2) by {
        assert forall|i: int| 0 <= i < d1.len() implies t2.skip(t0.len() as int)[i] == d1[i] by {
            assert(t2.take(t1.len() as int)[i + t0.len()] == t1[i + t0.len()]);
        }
    }
    lemma_after_bind(g, k, d2, a);
    lemma_after_concat(m, d1, d2, bind(g, k));
}

/// What was left is held to its end.
pub broadcast proof fn lemma_finish<A>(
    t0: Seq<Exchange>,
    t1: Seq<Exchange>,
    t2: Seq<Exchange>,
    m: Script<A>,
    n: Script<A>,
    a: A,
)
    requires
        #[trigger] reached(t0, t1, m, n),
        #[trigger] reached(t1, t2, n, Script::Done(a)),
    ensures
        reached(t0, t2, m, Script::Done(a)),
{
    reveal(reached);
    let d1 = t1.skip(t0.len() as int);
    let d2 = t2.skip(t1.len() as int);
    assert(t2.take(t0.len() as int) =~= t1.take(t0.len() as int)) by {
        assert(t2.take(t1.len() as int).take(t0.len() as int) =~= t2.take(t0.len() as int));
    }
    assert(t2.skip(t0.len() as int) =~= d1 + d2) by {
        assert forall|i: int| 0 <= i < d1.len() implies t2.skip(t0.len() as int)[i] == d1[i] by {
            assert(t2.take(t1.len() as int)[i + t0.len()] == t1[i + t0.len()]);
        }
    }
    lemma_after_concat(m, d1, d2, n);
}

/// Nothing said first.
pub broadcast proof fn lemma_bind_done<A, B>(a: A, k: spec_fn(A) -> Script<B>)
    ensures
        #[trigger] bind(Script::Done(a), k) == k(a),
{
    reveal(bind);
}

pub broadcast group group_talk {
    lemma_onward,
    lemma_finish,
    lemma_bind_done,
}

/// A statement that changes rows; the outcome is how many.
#[verifier::opaque]
pub open spec fn run(sql: Seq<char>, params: Seq<CellV>) -> Script<Result<usize, ErrorV>> {
    Script::Ask(Said::Run(sql, params), |r: Reply| Script::Done(r->Count_0))
}

/// A statement that reads rows.
#[verifier::opaque]
pub open spec fn read(sql: Seq<char>, params: Seq<CellV>) -> Script<
    Result<Seq<Seq<CellV>>, ErrorV>,
> {
    Script::Ask(Said::Read(sql, params), |r: Reply| Script::Done(r->Rows_0))
}

/// A statement that changes rows, however many.
pub open spec fn done(sql: Seq<char>, params: Seq<CellV>) -> Script<Result<(), ErrorV>> {
    chain(run(sql, params), |n: usize| Script::Done(Ok::<(), ErrorV>(())))
}

pub open spec fn write_metadata(m: Map<Seq<char>, JsonV>) -> Script<Result<Seq<char>, ErrorV>> {
    Script::Ask(Said::Metadata(m), |r: Reply| Script::Done(r->Text_0))
}

pub open spec fn write_document(j: JsonV) -> Script<Result<Seq<char>, ErrorV>> {
    Script::Ask(Said::Document(j), |r: Reply| Script::Done(r->Text_0))
}

pub open spec fn write_priority(p: PriorityV) -> Script<Result<Seq<char>, ErrorV>> {
    Script::Ask(Said::Priority(p), |r: Reply| Script::Done(r->Text_0))
}

pub open spec fn read_priority(t: Seq<char>) -> Script<Result<PriorityV, ErrorV>> {
    Script::Ask(Said::PriorityText(t), |r: Reply| Script::Done(r->Priority_0))
}

/// One conversation for each member of a list, up to the first that fails.
pub open spec fn each<A>(
    list: Seq<A>,
    f: spec_fn(A) -> Script<Result<(), ErrorV>>,
) -> Script<Result<(), ErrorV>>
    decreases list.len(),
{
    if list.len() == 0 {
        Script::Done(Ok(()))
    } else {
        chain(f(list[0]), |u: ()| each(list.drop_first(), f))
    }
}

/// One conversation for each member of a list, each with what those before it came to.
pub open spec fn fold<S, A>(
    list: Seq<A>,
    s: S,
    f: spec_fn(S, A) -> Script<Result<S, ErrorV>>,
) -> Script<Result<S, ErrorV>>
    decreases list.len(),
{
    if list.len() == 0 {
        Script::Done(Ok(s))
    } else {
        chain(f(s, list[0]), |n: S| fold(list.drop_first(), n, f))
    }
}

/// A list in stretches of at most `n`.
pub open spec fn chunks<A>(list: Seq<A>, n: nat) -> Seq<Seq<A>>
    decreases list.len(),
{
    if list.len() == 0 || n == 0 {
        Seq::empty()
    } else if list.len() <= n {
        seq![list]
    } else {
        seq![list.take(n as int)] + chunks(list.skip(n as int), n)
    }
}

/// No stretch is longer than the limit, and together they are the list.
pub proof fn law_chunks_are_bounded<A>(list: Seq<A>, n: nat)
    requires
        n > 0,
    ensures
        forall|i: int|
            0 <= i < chunks(list, n).len() ==> 0 < (#[trigger] chunks(list, n)[i]).len() <= n,
        chunks(list, n).flatten() == list,
    decreases list.len(),
{
    let c = chunks(list, n);
    if list.len() == 0 {
        assert(c.flatten() =~= list);
    } else if list.len() <= n {
        assert(c.flatten() == list) by {
            assert(c.len() == 1 && c.first() == list);
            c.lemma_flatten_one_element();
        }
    } else {
        law_chunks_are_bounded(list.skip(n as int), n);
        let head = seq![list.take(n as int)];
        let tail = chunks(list.skip(n as int), n);
        assert(c =~= head + tail);
        assert(c.first() == list.take(n as int));
        assert(c.drop_first() =~= tail);
        assert(list =~= list.take(n as int) + list.skip(n as int));
        assert forall|i: int| 0 <= i < c.len() implies 0 < (#[trigger] c[i]).len() <= n by {
            if i > 0 {
                assert(c[i] == tail[i - 1]);
            }
        }
    }
}

/// The stretches from a place on.
pub proof fn lemma_chunks_step<A>(list: Seq<A>, n: nat)
    requires
        n > 0,
        list.len() > 0,
    ensures
        chunks(list, n).len() > 0,
        chunks(list, n)[0] == list.take(
            if list.len() <= n {
                list.len() as int
            } else {
                n as int
            },
        ),
        chunks(list, n).drop_first() == chunks(
            list.skip(
                if list.len() <= n {
                    list.len() as int
                } else {
                    n as int
                },
            ),
            n,
        ),
{
    if list.len() <= n {
        assert(list.take(list.len() as int) =~= list);
        assert(list.skip(list.len() as int) =~= Seq::<A>::empty());
        assert(chunks(list, n).drop_first() =~= Seq::<Seq<A>>::empty());
    } else {
        assert(chunks(list, n).drop_first() =~= chunks(list.skip(n as int), n));
    }
}

/// Every member of a list, read one by one, up to the first that cannot be.
pub open spec fn all_of<A, B>(list: Seq<A>, f: spec_fn(A) -> Result<B, ErrorV>) -> Result<
    Seq<B>,
    ErrorV,
>
    decreases list.len(),
{
    if list.len() == 0 {
        Ok(Seq::empty())
    } else {
        match all_of(list.drop_last(), f) {
            Err(e) => Err(e),
            Ok(done) => match f(list.last()) {
                Err(e) => Err(e),
                Ok(b) => Ok(done.push(b)),
            },
        }
    }
}

pub proof fn lemma_all_of_step<A, B>(list: Seq<A>, f: spec_fn(A) -> Result<B, ErrorV>, i: int)
    requires
        0 <= i < list.len(),
    ensures
        all_of(list.take(i + 1), f) == (match all_of(list.take(i), f) {
            Err(e) => Err(e),
            Ok(done) => match f(list[i]) {
                Err(e) => Err(e),
                Ok(b) => Ok(done.push(b)),
            },
        }),
{
    assert(list.take(i + 1).drop_last() =~= list.take(i));
    assert(list.take(i + 1).last() == list[i]);
}

/// A member that cannot be read stops the list there.
pub proof fn lemma_all_of_stops<A, B>(
    list: Seq<A>,
    f: spec_fn(A) -> Result<B, ErrorV>,
    n: int,
    e: ErrorV,
)
    requires
        0 <= n <= list.len(),
        all_of(list.take(n), f) == Err::<Seq<B>, ErrorV>(e),
    ensures
        all_of(list, f) == Err::<Seq<B>, ErrorV>(e),
    decreases list.len() - n,
{
    if n == list.len() {
        assert(list.take(n) =~= list);
    } else {
        lemma_all_of_step(list, f, n);
        lemma_all_of_stops(list, f, n + 1, e);
    }
}

} // verus!
