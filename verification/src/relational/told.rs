//! What the store is surely told, whatever it replies.

use crate::relational::lists::listed;
use crate::relational::memory::{Kept, MemoryV, hold, pass};
use crate::relational::script::{Reply, Said, Script, bind, chain, done, each, run};
use crate::relational::value::CellV;
use crate::sql::async_projection::item_list;
use crate::types::ErrorV;
use vstd::prelude::*;

verus! {

/// On every way to an end that counts, something is said that meets the condition.
pub open spec fn surely<T>(
    m: Script<T>,
    counts: spec_fn(T) -> bool,
    p: spec_fn(Said) -> bool,
) -> bool
    decreases m,
{
    match m {
        Script::Done(a) => !counts(a),
        Script::Ask(s, f) => p(s) || forall|r: Reply| surely(#[trigger] f(r), counts, p),
    }
}

/// What surely meets a condition surely meets a weaker one.
pub proof fn lemma_surely_weaker<T>(
    m: Script<T>,
    counts: spec_fn(T) -> bool,
    p: spec_fn(Said) -> bool,
    w: spec_fn(Said) -> bool,
)
    requires
        surely(m, counts, p),
        forall|s: Said| p(s) ==> #[trigger] w(s),
    ensures
        surely(m, counts, w),
    decreases m,
{
    match m {
        Script::Done(_) => {},
        Script::Ask(s, f) => {
            if p(s) {
                assert(w(s));
            } else {
                assert forall|r: Reply| surely(#[trigger] f(r), counts, w) by {
                    lemma_surely_weaker(f(r), counts, p, w);
                }
            }
        },
    }
}

/// It went well.
pub open spec fn well<A>() -> spec_fn(Result<A, ErrorV>) -> bool {
    |r: Result<A, ErrorV>| r is Ok
}

/// It went well.
pub open spec fn kept_well<A>() -> spec_fn(Kept<A>) -> bool {
    |r: Kept<A>| r.1 is Ok
}

pub proof fn lemma_surely_bind<A, B>(
    g: Script<A>,
    k: spec_fn(A) -> Script<B>,
    first: spec_fn(A) -> bool,
    counts: spec_fn(B) -> bool,
    p: spec_fn(Said) -> bool,
)
    requires
        forall|a: A| !first(a) ==> surely(#[trigger] k(a), counts, p),
        surely(g, first, p) || forall|a: A| surely(#[trigger] k(a), counts, p),
    ensures
        surely(bind(g, k), counts, p),
    decreases g,
{
    reveal(bind);
    match g {
        Script::Done(a) => {
            assert(bind(g, k) == k(a));
            assert(surely(k(a), counts, p));
        },
        Script::Ask(s, f) => {
            let whole = bind(g, k);
            assert(whole is Ask && whole->Ask_0 == s);
            let h = whole->Ask_1;
            if !p(s) {
                assert forall|r: Reply| surely(#[trigger] h(r), counts, p) by {
                    if surely(g, first, p) {
                        assert(surely(f(r), first, p));
                    }
                    lemma_surely_bind(f(r), k, first, counts, p);
                    assert(h(r) == bind(f(r), k));
                }
            }
        },
    }
}

/// What the first part surely says, the whole does.
pub proof fn lemma_chain_first<A, B>(
    g: Script<Result<A, ErrorV>>,
    k: spec_fn(A) -> Script<Result<B, ErrorV>>,
    p: spec_fn(Said) -> bool,
)
    requires
        surely(g, well(), p),
    ensures
        surely(chain(g, k), well(), p),
{
    let h = |r: Result<A, ErrorV>|
        match r {
            Ok(a) => k(a),
            Err(e) => Script::Done(Err::<B, ErrorV>(e)),
        };
    lemma_surely_bind(g, h, well(), well(), p);
}

/// What the second part surely says, the whole does.
pub proof fn lemma_chain_then<A, B>(
    g: Script<Result<A, ErrorV>>,
    k: spec_fn(A) -> Script<Result<B, ErrorV>>,
    p: spec_fn(Said) -> bool,
)
    requires
        forall|a: A| surely(#[trigger] k(a), well(), p),
    ensures
        surely(chain(g, k), well(), p),
{
    let h = |r: Result<A, ErrorV>|
        match r {
            Ok(a) => k(a),
            Err(e) => Script::Done(Err::<B, ErrorV>(e)),
        };
    assert forall|r: Result<A, ErrorV>| surely(#[trigger] h(r), well(), p) by {
        match r {
            Ok(a) => {
                assert(surely(k(a), well(), p));
            },
            Err(_) => {},
        }
    }
    lemma_surely_bind(g, h, well(), well(), p);
}

pub proof fn lemma_hold_first<A, B>(
    mem: MemoryV,
    g: Script<Result<A, ErrorV>>,
    k: spec_fn(A) -> Script<Kept<B>>,
    p: spec_fn(Said) -> bool,
)
    requires
        surely(g, well(), p),
    ensures
        surely(hold(mem, g, k), kept_well(), p),
{
    let h = |r: Result<A, ErrorV>|
        match r {
            Ok(a) => k(a),
            Err(e) => Script::Done((mem, Err::<B, ErrorV>(e))),
        };
    lemma_surely_bind(g, h, well(), kept_well(), p);
}

pub proof fn lemma_hold_then<A, B>(
    mem: MemoryV,
    g: Script<Result<A, ErrorV>>,
    k: spec_fn(A) -> Script<Kept<B>>,
    p: spec_fn(Said) -> bool,
)
    requires
        forall|a: A| surely(#[trigger] k(a), kept_well(), p),
    ensures
        surely(hold(mem, g, k), kept_well(), p),
{
    let h = |r: Result<A, ErrorV>|
        match r {
            Ok(a) => k(a),
            Err(e) => Script::Done((mem, Err::<B, ErrorV>(e))),
        };
    assert forall|r: Result<A, ErrorV>| surely(#[trigger] h(r), kept_well(), p) by {
        match r {
            Ok(a) => {
                assert(surely(k(a), kept_well(), p));
            },
            Err(_) => {},
        }
    }
    lemma_surely_bind(g, h, well(), kept_well(), p);
}

pub proof fn lemma_pass_first<A, B>(
    g: Script<Kept<A>>,
    k: spec_fn(MemoryV, A) -> Script<Kept<B>>,
    p: spec_fn(Said) -> bool,
)
    requires
        surely(g, kept_well(), p),
    ensures
        surely(pass(g, k), kept_well(), p),
{
    let h = |r: Kept<A>|
        match r.1 {
            Ok(a) => k(r.0, a),
            Err(e) => Script::Done((r.0, Err::<B, ErrorV>(e))),
        };
    lemma_surely_bind(g, h, kept_well(), kept_well(), p);
}

pub proof fn lemma_pass_then<A, B>(
    g: Script<Kept<A>>,
    k: spec_fn(MemoryV, A) -> Script<Kept<B>>,
    p: spec_fn(Said) -> bool,
)
    requires
        forall|n: MemoryV, a: A| surely(#[trigger] k(n, a), kept_well(), p),
    ensures
        surely(pass(g, k), kept_well(), p),
{
    let h = |r: Kept<A>|
        match r.1 {
            Ok(a) => k(r.0, a),
            Err(e) => Script::Done((r.0, Err::<B, ErrorV>(e))),
        };
    assert forall|r: Kept<A>| surely(#[trigger] h(r), kept_well(), p) by {
        match r.1 {
            Ok(a) => {
                assert(surely(k(r.0, a), kept_well(), p));
            },
            Err(_) => {},
        }
    }
    lemma_surely_bind(g, h, kept_well(), kept_well(), p);
}

/// A statement is said.
pub proof fn lemma_done_says(sql: Seq<char>, ps: Seq<CellV>, p: spec_fn(Said) -> bool)
    requires
        p(Said::Run(sql, ps)),
    ensures
        surely(done(sql, ps), well(), p),
{
    reveal(run);
    let f = |r: Reply| Script::Done(r->Count_0);
    assert(run(sql, ps) == Script::Ask(Said::Run(sql, ps), f));
    assert(surely(run(sql, ps), well(), p));
    lemma_chain_first(run(sql, ps), |n: usize| Script::Done(Ok::<(), ErrorV>(())), p);
}

/// What is surely said for one member of a list is surely said for the list.
pub proof fn lemma_each_says<A>(
    list: Seq<A>,
    f: spec_fn(A) -> Script<Result<(), ErrorV>>,
    j: int,
    p: spec_fn(Said) -> bool,
)
    requires
        0 <= j < list.len(),
        surely(f(list[j]), well(), p),
    ensures
        surely(each(list, f), well(), p),
    decreases list.len(),
{
    let k = |u: ()| each(list.drop_first(), f);
    if j == 0 {
        lemma_chain_first(f(list[0]), k, p);
    } else {
        let rest = list.drop_first();
        assert(rest[j - 1] == list[j]);
        assert forall|u: ()| surely(#[trigger] k(u), well(), p) by {
            lemma_each_says(rest, f, j - 1, p);
        }
        lemma_chain_then(f(list[0]), k, p);
    }
}

/// A figure stands at the place.
pub open spec fn figure_at(t: Seq<char>, i: int) -> bool {
    0 <= i < t.len() && '0' <= t[i] <= '9'
}

/// How many marks stand before a place of a text.
pub open spec fn marks(sql: Seq<char>, k: int) -> int
    decreases k,
{
    if k <= 0 {
        0
    } else {
        marks(sql, k - 1) + if sql[k - 1] == '?' {
            1int
        } else {
            0int
        }
    }
}

/// Which parameter the mark that ends at a place stands for: the one of its number, or else the next in
/// turn.
pub open spec fn parameter(sql: Seq<char>, end: int) -> int {
    if figure_at(sql, end) {
        if figure_at(sql, end + 1) {
            (sql[end] as int - '0' as int) * 10 + (sql[end + 1] as int - '0' as int) - 1
        } else {
            sql[end] as int - '0' as int - 1
        }
    } else {
        marks(sql, end - 1)
    }
}

/// In the text of a statement the column stands at this place, and is set to, or compared with, the
/// parameter of this index.
pub open spec fn takes_at(sql: Seq<char>, column: Seq<char>, k: int, i: int) -> bool {
    let end = k + column.len() + 2;
    &&& 0 <= k
    &&& end <= sql.len()
    &&& sql.subrange(k, end) == column + seq!['=', '?']
    &&& parameter(sql, end) == i
}

/// The statement sets the column to the value, or asks for it.
pub open spec fn binds(sql: Seq<char>, ps: Seq<CellV>, column: Seq<char>, v: CellV) -> bool {
    exists|k: int, i: int| #[trigger]
        takes_at(sql, column, k, i) && 0 <= i < ps.len() && ps[i] == v
}

proof fn lemma_marks_more(sql: Seq<char>, more: Seq<char>, k: int)
    requires
        k <= sql.len(),
    ensures
        marks(sql + more, k) == marks(sql, k),
    decreases k,
{
    if k > 0 {
        lemma_marks_more(sql, more, k - 1);
        assert((sql + more)[k - 1] == sql[k - 1]);
    }
}

pub proof fn lemma_marks_behind(head: Seq<char>, sql: Seq<char>, k: int)
    requires
        0 <= k <= sql.len(),
    ensures
        marks(head + sql, head.len() + k) == marks(head, head.len() as int) + marks(sql, k),
    decreases k,
{
    if k > 0 {
        lemma_marks_behind(head, sql, k - 1);
        assert((head + sql)[head.len() + k - 1] == sql[k - 1]);
    } else {
        lemma_marks_more(head, sql, head.len() as int);
    }
}

/// What a text takes, it takes where more follows.
pub proof fn lemma_takes_more(sql: Seq<char>, more: Seq<char>, column: Seq<char>, k: int, i: int)
    requires
        takes_at(sql, column, k, i),
        k + column.len() + 4 <= sql.len(),
    ensures
        takes_at(sql + more, column, k, i),
{
    let end = k + column.len() + 2;
    let all = sql + more;
    assert(all.subrange(k, end) =~= sql.subrange(k, end));
    assert(all[end] == sql[end] && all[end + 1] == sql[end + 1]);
    lemma_marks_more(sql, more, end - 1);
}

/// What a text takes in turn, it takes later by the marks that stand before it.
pub proof fn lemma_takes_behind(head: Seq<char>, sql: Seq<char>, column: Seq<char>, k: int, i: int)
    requires
        takes_at(sql, column, k, i),
        !figure_at(sql, k + column.len() + 2),
    ensures
        takes_at(head + sql, column, head.len() + k, marks(head, head.len() as int) + i),
{
    let end = k + column.len() + 2;
    let all = head + sql;
    let n = head.len() as int;
    assert(all.subrange(n + k, n + end) =~= sql.subrange(k, end));
    assert(end < sql.len() ==> all[n + end] == sql[end]);
    lemma_marks_behind(head, sql, end - 1);
}

/// A column of the part before a list.
pub proof fn lemma_binds_listed(
    prefix: Seq<char>,
    n: nat,
    ps: Seq<CellV>,
    column: Seq<char>,
    k: int,
    i: int,
)
    requires
        takes_at(prefix, column, k, i),
        k + column.len() + 4 <= prefix.len(),
        0 <= i < ps.len(),
    ensures
        binds(listed(prefix, n, Seq::empty()), ps, column, ps[i]),
{
    let more = seq![' '] + item_list(n);
    assert(listed(prefix, n, Seq::empty()) =~= prefix + more);
    lemma_takes_more(prefix, more, column, k, i);
}

} // verus!
