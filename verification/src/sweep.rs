//! Leases that ran out, over many queues.

use crate::eligibility::first_of;
use crate::model::Model;
use crate::order::{OrdSet, OrderKey, Standing, ascending, lemma_ascending_at, lemma_ascending_distinct, lemma_listing_exists, lemma_lt_asymmetric, listing_of};
use crate::pending::{SweepCursor, after_cursor, past_cursor, run_out};
use crate::stores::InMemoryProjection;
use crate::typed::floor_div;
use crate::types::{EngineError, EngineResult, ErrorV, ItemId, QueueKey, QueueV, UtcTimestamp, ts_le};
use vstd::prelude::*;

verus! {

/// Where a sweep over many queues stopped.
#[derive(Debug)]
pub struct ExpiredLeaseCursor {
    /// The expiry in nanoseconds since the epoch.
    pub expiry: i64,
    pub queue: QueueKey,
    pub item: ItemId,
}

pub ghost struct LeaseCursorV {
    pub expiry: i64,
    pub queue: QueueV,
    pub item: ItemId,
}

impl ExpiredLeaseCursor {
    pub open spec fn view(&self) -> LeaseCursorV {
        LeaseCursorV { expiry: self.expiry, queue: self.queue@, item: self.item }
    }
}

pub open spec fn opt_cursor(c: Option<ExpiredLeaseCursor>) -> Option<LeaseCursorV> {
    match c {
        Some(x) => Some(x@),
        None => None,
    }
}

/// A page of leases that ran out, by queue, and where the next one starts.
#[derive(Debug)]
pub struct ExpiredLeasePage {
    pub leases: Vec<(QueueKey, Vec<ItemId>)>,
    pub next: Option<ExpiredLeaseCursor>,
}

pub open spec fn leases_v(l: Seq<(QueueKey, Vec<ItemId>)>) -> Seq<(QueueV, Seq<ItemId>)> {
    l.map_values(|x: (QueueKey, Vec<ItemId>)| (x.0@, x.1@))
}

/// A lease that ran out: when, in which queue, of which item.
pub type LeaseRow = (UtcTimestamp, (QueueV, u64));

/// The instant of a number of nanoseconds since the epoch.
pub open spec fn instant_of_nanos(n: i64) -> UtcTimestamp {
    UtcTimestamp {
        seconds: (n as int / 1_000_000_000) as i64,
        nanoseconds: (n as int % 1_000_000_000) as u32,
    }
}

pub open spec fn clamped(n: int) -> i64 {
    if n > i64::MAX {
        i64::MAX
    } else if n < i64::MIN {
        i64::MIN
    } else {
        n as i64
    }
}

/// The nanoseconds of an instant since the epoch, as far as the number can hold them.
pub open spec fn nanos_of(t: UtcTimestamp) -> i64 {
    clamped(clamped(t.seconds * 1_000_000_000) + t.nanoseconds)
}

fn instant_from_nanos(n: i64) -> (r: UtcTimestamp)
    ensures
        r == instant_of_nanos(n),
{
    let seconds = floor_div(n as i128, 1_000_000_000);
    let rest = n as i128 - seconds * 1_000_000_000;
    UtcTimestamp { seconds: seconds as i64, nanoseconds: rest as u32 }
}

fn clamp(n: i128) -> (r: i64)
    ensures
        r == clamped(n as int),
{
    if n > i64::MAX as i128 {
        i64::MAX
    } else if n < i64::MIN as i128 {
        i64::MIN
    } else {
        n as i64
    }
}

fn nanos_from_instant(t: UtcTimestamp) -> (r: i64)
    ensures
        r == nanos_of(t),
{
    let seconds = clamp(t.seconds as i128 * 1_000_000_000);
    clamp(seconds as i128 + t.nanoseconds as i128)
}

/// How a queue stands to the one where a sweep stopped.
pub open spec fn queue_standing(a: QueueV, b: QueueV) -> Standing {
    if a == b {
        Standing::Same
    } else if QueueKey::kless(a, b) {
        Standing::Below
    } else {
        Standing::Above
    }
}

/// Where a sweep goes on within a queue.
pub open spec fn queue_cursor(q: QueueV, c: Option<LeaseCursorV>) -> Option<SweepCursor> {
    match c {
        None => None,
        Some(c) => Some((instant_of_nanos(c.expiry), queue_standing(q, c.queue), c.item)),
    }
}

/// One more than a limit, where there is one more.
pub open spec fn one_more(limit: usize) -> nat {
    if limit == usize::MAX {
        limit as nat
    } else {
        limit as nat + 1
    }
}

/// The leases of a queue that ran out, from where a sweep goes on.
pub open spec fn queue_rows(
    m: Model,
    q: QueueV,
    now: UtcTimestamp,
    cursor: Option<LeaseCursorV>,
) -> Seq<(UtcTimestamp, ItemId)> {
    after_cursor(
        run_out(listing_of::<(UtcTimestamp, u64)>(m.by_expiry), now),
        queue_cursor(q, cursor),
    )
}

/// A queue that this worker sweeps.
pub open spec fn swept(worker: Option<Set<QueueV>>, q: QueueV) -> bool {
    worker is Some ==> worker->Some_0.contains(q)
}

/// Up to so many leases of each queue.
pub open spec fn page_rows(
    ms: Map<QueueV, Model>,
    now: UtcTimestamp,
    cursor: Option<LeaseCursorV>,
    worker: Option<Set<QueueV>>,
    limit: nat,
) -> Set<LeaseRow> {
    Set::new(
        |p: LeaseRow|
            {
                &&& ms.contains_key(p.1.0)
                &&& swept(worker, p.1.0)
                &&& first_of(queue_rows(ms[p.1.0], p.1.0, now, cursor), limit).contains(
                    (p.0, p.1.1),
                )
            },
    )
}

/// Rows by queue, as long as the queue stays the same.
pub open spec fn runs_of(rows: Seq<LeaseRow>) -> Seq<(QueueV, Seq<ItemId>)>
    decreases rows.len(),
{
    if rows.len() == 0 {
        Seq::empty()
    } else {
        let before = runs_of(rows.drop_last());
        let row = rows.last();
        if before.len() > 0 && before.last().0 == row.1.0 {
            before.drop_last().push((before.last().0, before.last().1.push(row.1.1)))
        } else {
            before.push((row.1.0, seq![row.1.1]))
        }
    }
}

/// A page of leases that ran out, and where the next one starts.
pub open spec fn swept_page(
    ms: Map<QueueV, Model>,
    now: UtcTimestamp,
    cursor: Option<LeaseCursorV>,
    worker: Option<Set<QueueV>>,
    limit: usize,
) -> (Seq<(QueueV, Seq<ItemId>)>, Option<LeaseCursorV>) {
    let rows = listing_of::<(UtcTimestamp, (QueueKey, u64))>(
        page_rows(ms, now, cursor, worker, one_more(limit)),
    );
    let page = first_of(rows, limit as nat);
    (
        runs_of(page),
        if rows.len() > limit {
            Some(
                LeaseCursorV {
                    expiry: nanos_of(page.last().0),
                    queue: page.last().1.0,
                    item: page.last().1.1,
                },
            )
        } else {
            None
        },
    )
}

/// The queues with leases that ran out.
pub open spec fn all_run_out(
    ms: Map<QueueV, Model>,
    queues: Seq<QueueV>,
    now: UtcTimestamp,
) -> Seq<(QueueV, Seq<ItemId>)>
    decreases queues.len(),
{
    if queues.len() == 0 {
        Seq::empty()
    } else {
        let before = all_run_out(ms, queues.drop_last(), now);
        let ids = run_out(
            listing_of::<(UtcTimestamp, u64)>(ms[queues.last()].by_expiry),
            now,
        ).map_values(|p: (UtcTimestamp, ItemId)| p.1);
        if ids.len() == 0 {
            before
        } else {
            before.push((queues.last(), ids))
        }
    }
}

/// The worker's queues by what they are.
pub open spec fn opt_queues(w: Option<&OrdSet<QueueKey>>) -> Option<Set<QueueV>> {
    match w {
        Some(s) => Some(s@),
        None => None,
    }
}

impl InMemoryProjection {
    /// The leases that ran out, by queue.
    pub fn all_expired_leases(&self, now: UtcTimestamp) -> (r: Vec<(QueueKey, Vec<ItemId>)>)
        ensures
            leases_v(r@) == all_run_out(self@, listing_of::<QueueKey>(self@.dom()), now),
    {
        let n = self.projections.len();
        let ghost queues = self.projections.listing();
        let mut out: Vec<(QueueKey, Vec<ItemId>)> = Vec::new();
        let mut i: usize = 0;
        assert(queues.take(0) =~= Seq::<QueueV>::empty());
        assert(leases_v(out@) =~= Seq::<(QueueV, Seq<ItemId>)>::empty());
        while i < n
            invariant
                i <= n,
                n == queues.len(),
                queues == self.projections.listing(),
                n == self.projections.values().len(),
                forall|j: int|
                    0 <= j < n ==> self.projections@.contains_key(#[trigger] queues[j])
                        && self.projections@[queues[j]] == self.projections.values()[j],
                leases_v(out@) == all_run_out(self@, queues.take(i as int), now),
            decreases n - i,
        {
            let ghost before = out@;
            proof {
                assert(queues.take(i as int + 1).drop_last() =~= queues.take(i as int));
                assert(queues.take(i as int + 1).last() == queues[i as int]);
                assert(self@[queues[i as int]] == self.projections.values()[i as int]@);
            }
            let ids = self.projections.value_at(i).expired_leases(now);
            if ids.len() > 0 {
                out.push((self.projections.key_at(i).duplicate(), ids));
                assert(leases_v(out@) =~= leases_v(before).push((queues[i as int], ids@)));
            }
            i = i + 1;
        }
        proof {
            assert(queues.take(i as int) =~= queues);
            assert(self@.dom() =~= self.projections@.dom());
        }
        out
    }

    /// The first rows of each queue that the worker sweeps.
    fn collect_rows(
        &self,
        now: UtcTimestamp,
        cursor: Option<&ExpiredLeaseCursor>,
        limit: usize,
        worker: Option<&OrdSet<QueueKey>>,
    ) -> (r: OrdSet<(UtcTimestamp, (QueueKey, u64))>)
        requires
            forall|q: QueueV| #[trigger]
                self@.contains_key(q) && swept(opt_queues(worker), q) && cursor is Some ==> ts_le(
                    instant_of_nanos(cursor->Some_0.expiry),
                    now,
                ),
        ensures
            r@ == page_rows(
                self@,
                now,
                match cursor {
                    Some(c) => Some(c@),
                    None => None,
                },
                opt_queues(worker),
                limit as nat,
            ),
    {
        let ghost cv = match cursor {
            Some(c) => Some(c@),
            None => None,
        };
        let ghost w = opt_queues(worker);
        let ghost want = page_rows(self@, now, cv, w, limit as nat);
        let n = self.projections.len();
        let ghost queues = self.projections.listing();
        proof {
            lemma_ascending_distinct::<QueueKey>(queues);
        }
        let mut out: OrdSet<(UtcTimestamp, (QueueKey, u64))> = OrdSet::new();
        let mut i: usize = 0;
        while i < n
            invariant
                i <= n,
                n == queues.len(),
                queues == self.projections.listing(),
                n == self.projections.values().len(),
                forall|j: int|
                    0 <= j < n ==> self.projections@.contains_key(#[trigger] queues[j])
                        && self.projections@[queues[j]] == self.projections.values()[j],
                forall|j: int, k: int| 0 <= j < k < n ==> queues[j] != queues[k],
                w == opt_queues(worker),
                cv == (match cursor {
                    Some(c) => Some(c@),
                    None => None,
                }),
                want == page_rows(self@, now, cv, w, limit as nat),
                forall|q: QueueV| #[trigger]
                    self@.contains_key(q) && swept(opt_queues(worker), q) && cursor is Some
                        ==> ts_le(instant_of_nanos(cursor->Some_0.expiry), now),
                forall|p: LeaseRow| #[trigger]
                    out@.contains(p) <==> want.contains(p) && queues.take(i as int).contains(
                        p.1.0,
                    ),
            decreases n - i,
        {
            let queue = self.projections.key_at(i);
            let projection = self.projections.value_at(i);
            let ghost q = queues[i as int];
            let ghost start = out@;
            assert(self@.contains_key(q));
            assert(self@[q] == projection@);
            let sweeps = match worker {
                Some(s) => s.contains(queue),
                None => true,
            };
            if sweeps {
                let after: Option<SweepCursor> = match cursor {
                    None => None,
                    Some(c) => {
                        let standing = queue.standing(&c.queue);
                        proof {
                            QueueKey::lt_irreflexive(q);
                            QueueKey::lt_total(q, c@.queue);
                            if QueueKey::kless(q, c@.queue) && QueueKey::kless(c@.queue, q) {
                                lemma_lt_asymmetric::<QueueKey>(q, c@.queue);
                            }
                        }
                        Some((instant_from_nanos(c.expiry), standing, c.item))
                    },
                };
                assert(after == queue_cursor(q, cv));
                let (rows, _) = projection.expired_leases_after(now, after, limit);
                let ghost list = first_of(queue_rows(self@[q], q, now, cv), limit as nat);
                assert(rows@ == list);
                let mut k: usize = 0;
                while k < rows.len()
                    invariant
                        k <= rows@.len(),
                        rows@ == list,
                        queue@ == q,
                        forall|p: LeaseRow| #[trigger]
                            out@.contains(p) <==> start.contains(p) || (p.1.0 == q && list.take(
                                k as int,
                            ).contains((p.0, p.1.1))),
                    decreases rows@.len() - k,
                {
                    let row = rows[k];
                    let ghost held = out@;
                    let entry: (UtcTimestamp, (QueueKey, u64)) = (
                        row.0,
                        (queue.duplicate(), row.1),
                    );
                    assert(entry.kv() == (row.0, (q, row.1)));
                    out.insert(entry);
                    proof {
                        let t = list.take(k as int);
                        let u = list.take(k as int + 1);
                        assert(u =~= t.push(row));
                        assert forall|p: LeaseRow| #[trigger] out@.contains(p) <==> start.contains(
                            p,
                        ) || (p.1.0 == q && u.contains((p.0, p.1.1))) by {
                            assert(held.contains(p) <==> start.contains(p) || (p.1.0 == q
                                && t.contains((p.0, p.1.1))));
                            let x = (p.0, p.1.1);
                            if t.contains(x) {
                                let j = choose|j: int| 0 <= j < t.len() && t[j] == x;
                                assert(u[j] == x);
                            }
                            if u.contains(x) {
                                let j = choose|j: int| 0 <= j < u.len() && u[j] == x;
                                if j < t.len() {
                                    assert(t[j] == x);
                                }
                            }
                            assert(u[k as int] == row);
                            assert(p == (p.0, (p.1.0, p.1.1)));
                        }
                    }
                    k = k + 1;
                }
                assert(list.take(k as int) =~= list);
            }
            proof {
                let t = queues.take(i as int);
                let u = queues.take(i as int + 1);
                assert(u =~= t.push(q));
                assert forall|p: LeaseRow| #[trigger] out@.contains(p) <==> want.contains(p)
                    && u.contains(p.1.0) by {
                    assert(start.contains(p) <==> want.contains(p) && t.contains(p.1.0));
                    if t.contains(p.1.0) {
                        let j = choose|j: int| 0 <= j < t.len() && t[j] == p.1.0;
                        assert(u[j] == p.1.0);
                        assert(queues[j] != queues[i as int]);
                    }
                    if u.contains(p.1.0) {
                        let j = choose|j: int| 0 <= j < u.len() && u[j] == p.1.0;
                        if j < t.len() {
                            assert(t[j] == p.1.0);
                        }
                    }
                    assert(u[i as int] == q);
                }
            }
            i = i + 1;
        }
        proof {
            assert(queues.take(i as int) =~= queues);
            assert forall|p: LeaseRow| want.contains(p) implies queues.contains(p.1.0) by {
                assert(self.projections@.contains_key(p.1.0));
            }
            assert(out@ =~= want);
        }
        out
    }

    /// A page of the leases that ran out before a time, by expiry, queue and item. The worker sweeps
    /// all queues, or those that are given.
    pub fn expired_leases_page(
        &self,
        now: UtcTimestamp,
        cursor: Option<&ExpiredLeaseCursor>,
        limit: usize,
        worker: Option<&OrdSet<QueueKey>>,
    ) -> (r: EngineResult<ExpiredLeasePage>)
        requires
            limit > 0 ==> forall|q: QueueV| #[trigger]
                self@.contains_key(q) && swept(opt_queues(worker), q) && cursor is Some ==> ts_le(
                    instant_of_nanos(cursor->Some_0.expiry),
                    now,
                ),
        ensures
            match r {
                Ok(p) => limit > 0 && (leases_v(p.leases@), opt_cursor(p.next)) == swept_page(
                    self@,
                    now,
                    match cursor {
                        Some(c) => Some(c@),
                        None => None,
                    },
                    opt_queues(worker),
                    limit,
                ),
                Err(e) => limit == 0 && e@ == ErrorV::Invalid(
                    "expired lease page limit must be nonzero"@,
                ),
            },
    {
        if limit == 0 {
            return Err(EngineError::Invalid("expired lease page limit must be nonzero"));
        }
        let more = if limit == usize::MAX {
            limit
        } else {
            limit + 1
        };
        let rows = self.collect_rows(now, cursor, more, worker);
        let total = rows.len();
        let n = if total > limit {
            limit
        } else {
            total
        };
        let ghost all = rows.listing();
        let ghost page = first_of(all, limit as nat);
        assert(page =~= all.take(n as int));
        let next = if total > limit {
            let last = rows.at(n - 1);
            assert(page.last() == all[n - 1]);
            assert(last.kv() == (last.0, (last.1.0@, last.1.1)));
            Some(
                ExpiredLeaseCursor {
                    expiry: nanos_from_instant(last.0),
                    queue: last.1.0.duplicate(),
                    item: last.1.1,
                },
            )
        } else {
            None
        };
        let mut leases: Vec<(QueueKey, Vec<ItemId>)> = Vec::new();
        let mut i: usize = 0;
        assert(all.take(0) =~= Seq::<LeaseRow>::empty());
        assert(leases_v(leases@) =~= Seq::<(QueueV, Seq<ItemId>)>::empty());
        while i < n
            invariant
                i <= n,
                n <= all.len(),
                all == rows.listing(),
                leases_v(leases@) == runs_of(all.take(i as int)),
            decreases n - i,
        {
            let row = rows.at(i);
            let ghost before = leases_v(leases@);
            let ghost held = leases@;
            proof {
                assert(all.take(i as int + 1).drop_last() =~= all.take(i as int));
                assert(all.take(i as int + 1).last() == all[i as int]);
                assert(all[i as int] == (row.0, (row.1.0@, row.1.1)));
            }
            let m = leases.len();
            let goes_on = if m > 0 {
                leases[m - 1].0.same(&row.1.0)
            } else {
                false
            };
            if goes_on {
                match leases.pop() {
                    Some((queue, mut ids)) => {
                        ids.push(row.1.1);
                        leases.push((queue, ids));
                        assert(leases_v(leases@) =~= before.drop_last().push(
                            (before.last().0, before.last().1.push(row.1.1)),
                        ));
                    },
                    None => {},
                }
            } else {
                let mut ids: Vec<ItemId> = Vec::new();
                ids.push(row.1.1);
                assert(ids@ =~= seq![row.1.1]);
                leases.push((row.1.0.duplicate(), ids));
                assert(leases_v(leases@) =~= before.push((row.1.0@, seq![row.1.1])));
            }
            i = i + 1;
        }
        assert(page =~= all.take(i as int));
        Ok(ExpiredLeasePage { leases, next })
    }
}

/// All the leases that ran out, from where a sweep goes on.
pub open spec fn every_row(
    ms: Map<QueueV, Model>,
    now: UtcTimestamp,
    cursor: Option<LeaseCursorV>,
    worker: Option<Set<QueueV>>,
) -> Set<LeaseRow> {
    Set::new(
        |p: LeaseRow|
            {
                &&& ms.contains_key(p.1.0)
                &&& swept(worker, p.1.0)
                &&& queue_rows(ms[p.1.0], p.1.0, now, cursor).contains((p.0, p.1.1))
            },
    )
}

proof fn lemma_run_out_prefix(l: Seq<(UtcTimestamp, ItemId)>, now: UtcTimestamp)
    ensures
        run_out(l, now).len() <= l.len(),
        run_out(l, now) == l.take(run_out(l, now).len() as int),
    decreases l.len(),
{
    if l.len() == 0 {
        assert(run_out(l, now) =~= l.take(0));
    } else {
        lemma_run_out_prefix(l.drop_first(), now);
        lemma_run_out_prefix(l.drop_last(), now);
        let r = run_out(l, now);
        assert(r =~= l.take(r.len() as int));
    }
}

proof fn lemma_after_cursor_suffix(l: Seq<(UtcTimestamp, ItemId)>, c: Option<SweepCursor>)
    ensures
        after_cursor(l, c).len() <= l.len(),
        after_cursor(l, c) == l.skip(l.len() - after_cursor(l, c).len()),
    decreases l.len(),
{
    if c is Some && l.len() > 0 && !past_cursor(c->Some_0, l[0]) {
        lemma_after_cursor_suffix(l.drop_first(), c);
        let r = after_cursor(l, c);
        assert(r =~= l.skip(l.len() - r.len()));
    } else {
        assert(l =~= l.skip(0));
    }
}

/// The rows of a queue ascend, and are leases of it.
proof fn lemma_queue_rows(
    m: Model,
    q: QueueV,
    now: UtcTimestamp,
    cursor: Option<LeaseCursorV>,
)
    requires
        m.by_expiry.finite(),
    ensures
        ascending::<(UtcTimestamp, u64)>(queue_rows(m, q, now, cursor)),
        queue_rows(m, q, now, cursor).to_set().subset_of(m.by_expiry),
{
    let l = listing_of::<(UtcTimestamp, u64)>(m.by_expiry);
    lemma_listing_exists::<(UtcTimestamp, u64)>(m.by_expiry);
    let p = run_out(l, now);
    lemma_run_out_prefix(l, now);
    let r = after_cursor(p, queue_cursor(q, cursor));
    lemma_after_cursor_suffix(p, queue_cursor(q, cursor));
    let off = p.len() - r.len();
    assert forall|i: int, j: int| 0 <= i < j < r.len() implies <(
        UtcTimestamp,
        u64,
    ) as OrderKey>::kless(#[trigger] r[i], #[trigger] r[j]) by {
        assert(r[i] == l[off + i]);
        assert(r[j] == l[off + j]);
        lemma_ascending_at::<(UtcTimestamp, u64)>(l, off + i, off + j);
    }
    assert forall|x: (UtcTimestamp, ItemId)| r.to_set().contains(x) implies m.by_expiry.contains(
        x,
    ) by {
        let j = choose|j: int| 0 <= j < r.len() && r[j] == x;
        assert(l[off + j] == x);
        assert(l.to_set().contains(x));
    }
}

proof fn lemma_rows_finite(
    ms: Map<QueueV, Model>,
    qs: Set<QueueV>,
    now: UtcTimestamp,
    cursor: Option<LeaseCursorV>,
    worker: Option<Set<QueueV>>,
)
    requires
        qs.finite(),
        forall|q: QueueV| #[trigger] ms.contains_key(q) ==> ms[q].by_expiry.finite(),
    ensures
        every_row(ms.restrict(qs), now, cursor, worker).finite(),
    decreases qs.len(),
{
    let s = every_row(ms.restrict(qs), now, cursor, worker);
    if qs.len() == 0 {
        assert(s =~= Set::<LeaseRow>::empty());
    } else {
        let q = qs.choose();
        let rest = qs.remove(q);
        lemma_rows_finite(ms, rest, now, cursor, worker);
        let t = every_row(ms.restrict(rest), now, cursor, worker);
        if ms.contains_key(q) {
            let f = |x: (UtcTimestamp, ItemId)| (x.0, (q, x.1));
            let own = ms[q].by_expiry.map(f);
            ms[q].by_expiry.lemma_map_finite(f);
            lemma_queue_rows(ms[q], q, now, cursor);
            assert forall|p: LeaseRow| s.contains(p) implies t.union(own).contains(p) by {
                if p.1.0 == q {
                    let x = (p.0, p.1.1);
                    assert(queue_rows(ms[q], q, now, cursor).to_set().contains(x));
                    assert(ms[q].by_expiry.contains(x));
                    assert(f(x) == p);
                } else {
                    assert(rest.contains(p.1.0));
                    assert(ms.restrict(rest).contains_key(p.1.0));
                    assert(ms.restrict(rest)[p.1.0] == ms.restrict(qs)[p.1.0]);
                }
            }
            vstd::set_lib::lemma_set_subset_finite(t.union(own), s);
        } else {
            assert forall|p: LeaseRow| s.contains(p) implies t.contains(p) by {
                assert(p.1.0 != q);
                assert(rest.contains(p.1.0));
                assert(ms.restrict(rest).contains_key(p.1.0));
                assert(ms.restrict(rest)[p.1.0] == ms.restrict(qs)[p.1.0]);
            }
            vstd::set_lib::lemma_set_subset_finite(t, s);
        }
    }
}

/// Where a listing holds the first members of a larger one, it starts with them.
proof fn lemma_same_start<K: OrderKey>(large: Seq<K::V>, small: Seq<K::V>, k: nat, j: int)
    requires
        ascending::<K>(large),
        ascending::<K>(small),
        small.to_set().subset_of(large.to_set()),
        forall|i: int| 0 <= i < large.len() && i < k ==> small.to_set().contains(
            #[trigger] large[i],
        ),
        0 <= j < large.len(),
        j < k,
    ensures
        j < small.len(),
        small[j] == large[j],
    decreases j,
{
    assert(small.to_set().contains(large[j]));
    let b = choose|b: int| 0 <= b < small.len() && small[b] == large[j];
    lemma_ascending_distinct::<K>(small);
    lemma_ascending_distinct::<K>(large);
    if b < j {
        lemma_same_start::<K>(large, small, k, b);
        assert(large[b] == large[j]);
    }
    if b > j {
        assert(small.to_set().contains(small[j]));
        assert(large.to_set().contains(small[j]));
        let c = choose|c: int| 0 <= c < large.len() && large[c] == small[j];
        lemma_ascending_at::<K>(small, j, b);
        if c > j {
            lemma_ascending_at::<K>(large, j, c);
            lemma_lt_asymmetric::<K>(small[j], small[b]);
        } else if c == j {
            K::lt_irreflexive(small[j]);
        } else {
            lemma_same_start::<K>(large, small, k, c);
            assert(small[c] == small[j]);
        }
    }
}

/// A row of a queue stands no earlier among all rows than among its queue's.
proof fn lemma_rank(
    all: Seq<LeaseRow>,
    own: Seq<(UtcTimestamp, ItemId)>,
    q: QueueV,
    a: int,
    at: int,
)
    requires
        ascending::<(UtcTimestamp, (QueueKey, u64))>(all),
        ascending::<(UtcTimestamp, u64)>(own),
        forall|i: int|
            0 <= i < own.len() ==> all.to_set().contains(((#[trigger] own[i]).0, (q, own[i].1))),
        0 <= a < own.len(),
        0 <= at < all.len(),
        all[at] == (own[a].0, (q, own[a].1)),
    ensures
        a <= at,
    decreases a,
{
    if a > 0 {
        let x = own[a - 1];
        let row: LeaseRow = (x.0, (q, x.1));
        assert(all.to_set().contains(row));
        let b = choose|b: int| 0 <= b < all.len() && all[b] == row;
        lemma_rank(all, own, q, a - 1, b);
        lemma_ascending_at::<(UtcTimestamp, u64)>(own, a - 1, a);
        assert(<(UtcTimestamp, (QueueKey, u64)) as OrderKey>::kless(row, all[at]));
        if b > at {
            lemma_ascending_at::<(UtcTimestamp, (QueueKey, u64))>(all, at, b);
            lemma_lt_asymmetric::<(UtcTimestamp, (QueueKey, u64))>(row, all[at]);
        } else if b == at {
            <(UtcTimestamp, (QueueKey, u64)) as OrderKey>::lt_irreflexive(row);
        }
    }
}

/// To look at no more than one lease past the limit in each queue is enough: the page holds the first
/// leases of all queues together, and tells rightly whether there are more.
pub proof fn law_bounded_sweep_loses_nothing(
    ms: Map<QueueV, Model>,
    now: UtcTimestamp,
    cursor: Option<LeaseCursorV>,
    worker: Option<Set<QueueV>>,
    limit: usize,
)
    requires
        ms.dom().finite(),
        forall|q: QueueV| #[trigger] ms.contains_key(q) ==> ms[q].by_expiry.finite(),
        limit < usize::MAX,
    ensures
        ({
            let some = listing_of::<(UtcTimestamp, (QueueKey, u64))>(
                page_rows(ms, now, cursor, worker, one_more(limit)),
            );
            let all = listing_of::<(UtcTimestamp, (QueueKey, u64))>(
                every_row(ms, now, cursor, worker),
            );
            &&& first_of(some, limit as nat) == first_of(all, limit as nat)
            &&& (some.len() > limit) == (all.len() > limit)
        }),
{
    let k = one_more(limit);
    let s = every_row(ms, now, cursor, worker);
    let t = page_rows(ms, now, cursor, worker, k);
    assert(ms.restrict(ms.dom()) =~= ms);
    lemma_rows_finite(ms, ms.dom(), now, cursor, worker);
    assert forall|p: LeaseRow| t.contains(p) implies s.contains(p) by {
        let r = queue_rows(ms[p.1.0], p.1.0, now, cursor);
        let f = first_of(r, k);
        let j = choose|j: int| 0 <= j < f.len() && f[j] == (p.0, p.1.1);
        assert(r[j] == (p.0, p.1.1));
    }
    vstd::set_lib::lemma_set_subset_finite(s, t);
    lemma_listing_exists::<(UtcTimestamp, (QueueKey, u64))>(s);
    lemma_listing_exists::<(UtcTimestamp, (QueueKey, u64))>(t);
    let all = listing_of::<(UtcTimestamp, (QueueKey, u64))>(s);
    let some = listing_of::<(UtcTimestamp, (QueueKey, u64))>(t);
    assert forall|i: int| 0 <= i < all.len() && i < k implies some.to_set().contains(
        #[trigger] all[i],
    ) by {
        let p = all[i];
        assert(all.to_set().contains(p));
        let q = p.1.0;
        let own = queue_rows(ms[q], q, now, cursor);
        lemma_queue_rows(ms[q], q, now, cursor);
        let a = choose|a: int| 0 <= a < own.len() && own[a] == (p.0, p.1.1);
        assert forall|x: int| 0 <= x < own.len() implies all.to_set().contains(
            ((#[trigger] own[x]).0, (q, own[x].1)),
        ) by {
            let row: LeaseRow = (own[x].0, (q, own[x].1));
            assert(own.contains((row.0, row.1.1)));
            assert(s.contains(row));
        }
        assert(p == (own[a].0, (q, own[a].1)));
        lemma_rank(all, own, q, a, i);
        assert(first_of(own, k)[a] == own[a]);
        assert(t.contains(p));
    }
    assert forall|j: int| 0 <= j < all.len() && j < k implies j < some.len() && some[j]
        == #[trigger] all[j] by {
        lemma_same_start::<(UtcTimestamp, (QueueKey, u64))>(all, some, k, j);
    }
    lemma_ascending_distinct::<(UtcTimestamp, (QueueKey, u64))>(all);
    lemma_ascending_distinct::<(UtcTimestamp, (QueueKey, u64))>(some);
    all.unique_seq_to_set();
    some.unique_seq_to_set();
    vstd::set_lib::lemma_len_subset(t, s);
    if all.len() > limit {
        assert(some[limit as int] == all[limit as int]);
    } else if all.len() > 0 {
        assert(some[all.len() - 1] == all[all.len() - 1]);
    }
    assert(first_of(some, limit as nat) =~= first_of(all, limit as nat));
}

} // verus!
