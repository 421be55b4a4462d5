//! Leases: which are out, who holds them, and which have run out.

use crate::apply::members_of;
use crate::eligibility::first_of;
use crate::model::Model;
use crate::order::{OrderKey, Standing, ascending, lemma_ascending_at, lemma_listing_of, listing_of};
use crate::projection::ProjectionData;
use crate::reads::{LeaseView, LeaseViewV, lease_views_v, lemma_picked_prefix, live_lease, picked, stored_lease};
use crate::text::same_text;
use crate::types::{ItemId, UtcTimestamp, ts_le, ts_lt};
use vstd::prelude::*;

verus! {

/// The leases of a queue at a glance.
#[derive(Debug)]
pub struct PendingSummary {
    pub count: u64,
    pub min_id: Option<ItemId>,
    pub max_id: Option<ItemId>,
    pub consumers: Vec<(String, u64)>,
}

/// A page of leases, with the item that the next page starts at.
#[derive(Debug)]
pub struct PendingPage {
    pub entries: Vec<LeaseView>,
    pub next: Option<ItemId>,
}

pub open spec fn consumers_v(v: Seq<(String, u64)>) -> Seq<(Seq<char>, u64)> {
    v.map_values(|c: (String, u64)| (c.0@, c.1))
}

/// How many items each consumer holds, by token.
pub open spec fn consumer_counts(l: Seq<(Seq<char>, ItemId)>) -> Seq<(Seq<char>, u64)>
    decreases l.len(),
{
    if l.len() == 0 {
        Seq::empty()
    } else {
        let before = consumer_counts(l.drop_last());
        if before.len() > 0 && before.last().0 == l.last().0 {
            before.update(before.len() - 1, (l.last().0, (before.last().1 + 1) as u64))
        } else {
            before.push((l.last().0, 1))
        }
    }
}

/// The members that are not below one.
pub open spec fn from_id(l: Seq<ItemId>, start: Option<ItemId>) -> Seq<ItemId>
    decreases l.len(),
{
    if start is Some && l.len() > 0 && l[0] < start->Some_0 {
        from_id(l.drop_first(), start)
    } else {
        l
    }
}

/// The members that are not above one.
pub open spec fn through_id(l: Seq<ItemId>, end: Option<ItemId>) -> Seq<ItemId>
    decreases l.len(),
{
    if end is Some && l.len() > 0 && end->Some_0 < l.last() {
        through_id(l.drop_last(), end)
    } else {
        l
    }
}

/// What a bounded listing starts with, by position.
proof fn lemma_from_id(l: Seq<ItemId>, start: ItemId, n: int)
    requires
        0 <= n <= l.len(),
        forall|i: int| 0 <= i < l.len() ==> (i < n <==> #[trigger] l[i] < start),
    ensures
        from_id(l, Some(start)) == l.skip(n),
    decreases l.len(),
{
    if n > 0 {
        assert(l[0] < start);
        let rest = l.drop_first();
        assert forall|i: int| 0 <= i < rest.len() implies (i < n - 1 <==> #[trigger] rest[i]
            < start) by {
            assert(rest[i] == l[i + 1]);
        }
        lemma_from_id(rest, start, n - 1);
        assert(rest.skip(n - 1) =~= l.skip(n));
    } else {
        if l.len() > 0 {
            assert(!(l[0] < start));
        }
        assert(l.skip(0) =~= l);
    }
}

proof fn lemma_through_id(l: Seq<ItemId>, end: ItemId, n: int)
    requires
        0 <= n <= l.len(),
        forall|i: int| 0 <= i < l.len() ==> (i < n <==> #[trigger] l[i] <= end),
    ensures
        through_id(l, Some(end)) == l.take(n),
    decreases l.len(),
{
    if n < l.len() {
        assert(!(l[l.len() - 1] <= end));
        let rest = l.drop_last();
        assert forall|i: int| 0 <= i < rest.len() implies (i < n <==> #[trigger] rest[i] <= end) by {
            assert(rest[i] == l[i]);
        }
        lemma_through_id(rest, end, n);
        assert(rest.take(n) =~= l.take(n));
    } else {
        if l.len() > 0 {
            assert(l[l.len() - 1] <= end);
        }
        assert(l.take(n) =~= l);
    }
}

/// A page of leases from an item on.
pub open spec fn leases_page(m: Model, start: Option<ItemId>, limit: nat) -> (
    Seq<LeaseViewV>,
    Option<ItemId>,
) {
    let all = picked(m.items, from_id(listing_of::<u64>(m.leased), start), live_lease());
    (
        first_of(all, limit),
        if limit < all.len() {
            Some(all[limit as int].item_id)
        } else {
            None
        },
    )
}

/// The items that a consumer holds; all leased items for one that holds none.
pub open spec fn held_by(m: Model, consumer: Option<Seq<char>>) -> Seq<ItemId> {
    let of = |t: Seq<char>| Set::new(|id: ItemId| m.by_consumer.contains((t, id)));
    match consumer {
        Some(t) => if of(t) == Set::<ItemId>::empty() {
            listing_of::<u64>(m.leased)
        } else {
            listing_of::<u64>(of(t))
        },
        None => listing_of::<u64>(m.leased),
    }
}

/// The leases that ran out before a time, the first to do so first.
pub open spec fn run_out(l: Seq<(UtcTimestamp, ItemId)>, now: UtcTimestamp) -> Seq<
    (UtcTimestamp, ItemId),
>
    decreases l.len(),
{
    if l.len() > 0 && !ts_lt(l.last().0, now) {
        run_out(l.drop_last(), now)
    } else {
        l
    }
}

/// Where a sweep over several queues stopped: the expiry, how this queue stands to the one it stopped
/// in, and the item.
pub type SweepCursor = (UtcTimestamp, Standing, ItemId);

/// The lease comes after the place where the sweep stopped.
pub open spec fn past_cursor(c: SweepCursor, p: (UtcTimestamp, ItemId)) -> bool {
    ts_lt(c.0, p.0) || (p.0 == c.0 && (c.1 is Above || (c.1 is Same && c.2 < p.1)))
}

/// The leases after the place where the sweep stopped.
pub open spec fn after_cursor(
    l: Seq<(UtcTimestamp, ItemId)>,
    c: Option<SweepCursor>,
) -> Seq<(UtcTimestamp, ItemId)>
    decreases l.len(),
{
    if c is Some && l.len() > 0 && !past_cursor(c->Some_0, l[0]) {
        after_cursor(l.drop_first(), c)
    } else {
        l
    }
}

proof fn lemma_run_out(l: Seq<(UtcTimestamp, ItemId)>, now: UtcTimestamp, n: int)
    requires
        0 <= n <= l.len(),
        forall|i: int| 0 <= i < l.len() ==> (i < n <==> ts_lt((#[trigger] l[i]).0, now)),
    ensures
        run_out(l, now) == l.take(n),
    decreases l.len(),
{
    if n < l.len() {
        assert(!ts_lt(l[l.len() - 1].0, now));
        let rest = l.drop_last();
        assert forall|i: int| 0 <= i < rest.len() implies (i < n <==> ts_lt(
            (#[trigger] rest[i]).0,
            now,
        )) by {
            assert(rest[i] == l[i]);
        }
        lemma_run_out(rest, now, n);
        assert(rest.take(n) =~= l.take(n));
    } else {
        if l.len() > 0 {
            assert(ts_lt(l[l.len() - 1].0, now));
        }
        assert(l.take(n) =~= l);
    }
}

proof fn lemma_after_cursor(l: Seq<(UtcTimestamp, ItemId)>, c: SweepCursor, n: int)
    requires
        0 <= n <= l.len(),
        forall|i: int| 0 <= i < l.len() ==> (i < n <==> !past_cursor(c, #[trigger] l[i])),
    ensures
        after_cursor(l, Some(c)) == l.skip(n),
    decreases l.len(),
{
    if n > 0 {
        assert(!past_cursor(c, l[0]));
        let rest = l.drop_first();
        assert forall|i: int| 0 <= i < rest.len() implies (i < n - 1 <==> !past_cursor(
            c,
            #[trigger] rest[i],
        )) by {
            assert(rest[i] == l[i + 1]);
        }
        lemma_after_cursor(rest, c, n - 1);
        assert(rest.skip(n - 1) =~= l.skip(n));
    } else {
        if l.len() > 0 {
            assert(past_cursor(c, l[0]));
        }
        assert(l.skip(0) =~= l);
    }
}

impl ProjectionData {
    /// The leased items, in order.
    fn leased_list(&self) -> (r: Vec<ItemId>)
        ensures
            r@ == listing_of::<u64>(self@.leased),
            ascending::<u64>(r@),
    {
        let n = self.leased_ids.len();
        let ghost l = self.leased_ids.listing();
        let mut out: Vec<ItemId> = Vec::new();
        let mut i: usize = 0;
        while i < n
            invariant
                i <= n,
                n == l.len(),
                l == self.leased_ids.listing(),
                out@ == l.take(i as int),
            decreases n - i,
        {
            out.push(*self.leased_ids.at(i));
            assert(l.take(i as int + 1) =~= l.take(i as int).push(l[i as int]));
            i = i + 1;
        }
        assert(l.take(i as int) =~= l);
        out
    }

    /// Up to `limit` live leases of some items, and the item of the one after.
    fn leases_of(&self, ids: &Vec<ItemId>, from: usize, to: usize, limit: usize) -> (r: (
        Vec<LeaseView>,
        Option<ItemId>,
    ))
        requires
            from <= to <= ids@.len(),
        ensures
            ({
                let all = picked(
                    self@.items,
                    ids@.subrange(from as int, to as int),
                    live_lease(),
                );
                &&& lease_views_v(r.0@) == first_of(all, limit as nat)
                &&& r.1 == (if limit < all.len() {
                    Some(all[limit as int].item_id)
                } else {
                    None
                })
            }),
    {
        let ghost part = ids@.subrange(from as int, to as int);
        let ghost all = picked(self@.items, part, live_lease());
        let mut out: Vec<LeaseView> = Vec::new();
        let mut i: usize = from;
        assert(part.take(0) =~= Seq::<ItemId>::empty());
        assert(lease_views_v(out@) =~= Seq::<LeaseViewV>::empty());
        while i < to
            invariant
                from <= i <= to <= ids@.len(),
                part == ids@.subrange(from as int, to as int),
                all == picked(self@.items, part, live_lease()),
                out@.len() <= limit,
                lease_views_v(out@) == picked(self@.items, part.take(i - from), live_lease()),
            decreases to - i,
        {
            proof {
                assert(part.take(i - from + 1).drop_last() =~= part.take(i - from));
                assert(part.take(i - from + 1).last() == ids@[i as int]);
                lemma_picked_prefix(self@.items, part, live_lease(), i - from + 1);
                lemma_picked_prefix(self@.items, part, live_lease(), i - from);
            }
            match self.record(ids[i]) {
                None => {},
                Some(rec) => match rec.lease_view() {
                    None => {},
                    Some(v) => {
                        let ghost now = picked(
                            self@.items,
                            part.take(i - from + 1),
                            live_lease(),
                        );
                        assert(now == lease_views_v(out@).push(v@));
                        if out.len() == limit {
                            proof {
                                assert(all.take(now.len() as int)[limit as int] == v@);
                                assert(lease_views_v(out@) =~= all.take(limit as int));
                            }
                            return (out, Some(v.item_id));
                        }
                        let ghost before = out@;
                        out.push(v);
                        assert(lease_views_v(out@) =~= lease_views_v(before).push(v@));
                    },
                },
            }
            i = i + 1;
        }
        assert(part.take(i - from) =~= part);
        (out, None)
    }

    /// The leases of all leased items.
    pub fn pending_leases(&self) -> (r: Vec<LeaseView>)
        ensures
            lease_views_v(r@) == picked(
                self@.items,
                listing_of::<u64>(self@.leased),
                stored_lease(),
            ),
    {
        let ids = self.leased_list();
        let mut out: Vec<LeaseView> = Vec::new();
        let mut i: usize = 0;
        assert(ids@.take(0) =~= Seq::<ItemId>::empty());
        assert(lease_views_v(out@) =~= Seq::<LeaseViewV>::empty());
        while i < ids.len()
            invariant
                i <= ids@.len(),
                lease_views_v(out@) == picked(self@.items, ids@.take(i as int), stored_lease()),
            decreases ids@.len() - i,
        {
            proof {
                assert(ids@.take(i as int + 1).drop_last() =~= ids@.take(i as int));
                assert(ids@.take(i as int + 1).last() == ids@[i as int]);
            }
            match self.record(ids[i]) {
                None => {},
                Some(rec) => match rec.lease_columns() {
                    None => {},
                    Some(v) => {
                        let ghost before = out@;
                        out.push(v);
                        assert(lease_views_v(out@) =~= lease_views_v(before).push(v@));
                    },
                },
            }
            i = i + 1;
        }
        assert(ids@.take(i as int) =~= ids@);
        out
    }

    /// How many items are leased, the first and the last of them, and how many each consumer holds.
    pub fn pending_summary(&self) -> (r: PendingSummary)
        ensures
            ({
                let l = listing_of::<u64>(self@.leased);
                &&& r.count == l.len()
                &&& r.min_id == (if l.len() > 0 {
                    Some(l[0])
                } else {
                    None
                })
                &&& r.max_id == (if l.len() > 0 {
                    Some(l.last())
                } else {
                    None
                })
                &&& consumers_v(r.consumers@) == consumer_counts(
                    listing_of::<(String, u64)>(self@.by_consumer),
                )
            }),
    {
        let n = self.leased_by_consumer.len();
        let ghost l = self.leased_by_consumer.listing();
        let mut consumers: Vec<(String, u64)> = Vec::new();
        let mut i: usize = 0;
        assert(l.take(0) =~= Seq::<(Seq<char>, ItemId)>::empty());
        assert(consumers_v(consumers@) =~= Seq::<(Seq<char>, u64)>::empty());
        while i < n
            invariant
                i <= n,
                n == l.len(),
                l == self.leased_by_consumer.listing(),
                forall|k: int| 0 <= k < consumers@.len() ==> (#[trigger] consumers@[k]).1 <= i,
                consumers_v(consumers@) == consumer_counts(l.take(i as int)),
            decreases n - i,
        {
            proof {
                assert(l.take(i as int + 1).drop_last() =~= l.take(i as int));
                assert(l.take(i as int + 1).last() == l[i as int]);
            }
            let entry = self.leased_by_consumer.at(i);
            let k = consumers.len();
            let ghost before = consumers@;
            let same = k > 0 && same_text(consumers[k - 1].0.as_str(), entry.0.as_str());
            if same {
                assert(consumers@[k - 1].1 <= i);
                assert(consumers_v(before).last() == (before[k - 1].0@, before[k - 1].1));
                let c = (entry.0.clone(), consumers[k - 1].1 + 1);
                consumers.set(k - 1, c);
                assert(consumers_v(consumers@) =~= consumers_v(before).update(
                    k - 1,
                    (c.0@, c.1),
                ));
            } else {
                proof {
                    if k > 0 {
                        assert(consumers_v(before).last() == (before[k - 1].0@, before[k - 1].1));
                    }
                }
                let c = (entry.0.clone(), 1u64);
                consumers.push(c);
                assert(consumers_v(consumers@) =~= consumers_v(before).push((c.0@, c.1)));
            }
            i = i + 1;
        }
        assert(l.take(i as int) =~= l);
        let count = self.leased_ids.len();
        let (min_id, max_id) = if count > 0 {
            (Some(*self.leased_ids.at(0)), Some(*self.leased_ids.at(count - 1)))
        } else {
            (None, None)
        };
        PendingSummary { count: count as u64, min_id, max_id, consumers }
    }

    /// A page of live leases, from an item on.
    pub fn pending_page(&self, start: Option<ItemId>, limit: usize) -> (r: PendingPage)
        ensures
            (lease_views_v(r.entries@), r.next) == leases_page(self@, start, limit as nat),
    {
        let ids = self.leased_list();
        let from = match start {
            None => 0,
            Some(s) => {
                let n = self.leased_ids.len();
                let at = self.leased_ids.count_below(&s);
                proof {
                    assert forall|i: int| 0 <= i < ids@.len() implies (i < at <==> #[trigger] ids@[i]
                        < s) by {
                        assert(ids@[i] == self.leased_ids.listing()[i]);
                    }
                    lemma_from_id(ids@, s, at as int);
                }
                at
            },
        };
        proof {
            assert(ids@.subrange(from as int, ids@.len() as int) =~= ids@.skip(from as int));
            assert(ids@.skip(0) =~= ids@);
        }
        let (entries, next) = self.leases_of(&ids, from, ids.len(), limit);
        PendingPage { entries, next }
    }

    /// Live leases within a range of items, of one consumer or of all. A consumer that holds nothing is
    /// shown the leases of all.
    #[verifier::rlimit(30)]
    pub fn pending_range(
        &self,
        start: Option<ItemId>,
        end: Option<ItemId>,
        consumer: Option<&String>,
        limit: usize,
    ) -> (r: Vec<LeaseView>)
        requires
            start is Some && end is Some ==> start->Some_0 <= end->Some_0,
        ensures
            lease_views_v(r@) == first_of(
                picked(
                    self@.items,
                    through_id(
                        from_id(
                            held_by(
                                self@,
                                match consumer {
                                    Some(t) => Some(t@),
                                    None => None,
                                },
                            ),
                            start,
                        ),
                        end,
                    ),
                    live_lease(),
                ),
                limit as nat,
            ),
    {
        let held_ids = match consumer {
            None => Vec::new(),
            Some(t) => {
                let own = members_of(&self.leased_by_consumer, t);
                proof {
                    let of = Set::new(|id: ItemId| self@.by_consumer.contains((t@, id)));
                    assert(own@.to_set() =~= of);
                    lemma_listing_of::<u64>(own@);
                    if own@.len() > 0 {
                        assert(own@.contains(own@[0]));
                        assert(of.contains(own@[0]));
                    } else {
                        assert(of =~= Set::<ItemId>::empty());
                    }
                }
                own
            },
        };
        let ids = if held_ids.len() > 0 {
            held_ids
        } else {
            self.leased_list()
        };
        let n = ids.len();
        let mut from: usize = 0;
        match start {
            None => {},
            Some(s) => {
                while from < n && ids[from] < s
                    invariant
                        from <= n,
                        n == ids@.len(),
                        forall|i: int| 0 <= i < from ==> #[trigger] ids@[i] < s,
                    decreases n - from,
                {
                    from = from + 1;
                }
                proof {
                    assert forall|i: int| 0 <= i < ids@.len() implies (i < from <==> #[trigger] ids@[i]
                        < s) by {
                        if i > from {
                            lemma_ascending_at::<u64>(ids@, from as int, i);
                        }
                    }
                    lemma_from_id(ids@, s, from as int);
                }
            },
        }
        let ghost tail = ids@.skip(from as int);
        assert(ids@.skip(0) =~= ids@);
        assert(tail == from_id(ids@, start));
        let mut to: usize = from;
        match end {
            None => {
                to = n;
                assert(ids@.subrange(from as int, n as int) =~= tail);
            },
            Some(e) => {
                while to < n && ids[to] <= e
                    invariant
                        from <= to <= n,
                        n == ids@.len(),
                        forall|i: int| from <= i < to ==> #[trigger] ids@[i] <= e,
                    decreases n - to,
                {
                    to = to + 1;
                }
                proof {
                    assert forall|i: int| 0 <= i < tail.len() implies (i < to - from
                        <==> #[trigger] tail[i] <= e) by {
                        assert(tail[i] == ids@[i + from]);
                        if i > to - from {
                            lemma_ascending_at::<u64>(ids@, to as int, i + from);
                        }
                    }
                    lemma_through_id(tail, e, to - from);
                    assert(tail.take(to - from) =~= ids@.subrange(from as int, to as int));
                }
            },
        }
        let (entries, _) = self.leases_of(&ids, from, to, limit);
        entries
    }

    /// The live leases of some items.
    pub fn pending_by_ids(&self, ids: &Vec<ItemId>) -> (r: Vec<LeaseView>)
        ensures
            lease_views_v(r@) == picked(self@.items.restrict(self@.leased), ids@, live_lease()),
    {
        let ghost shown = self@.items.restrict(self@.leased);
        let mut out: Vec<LeaseView> = Vec::new();
        let mut i: usize = 0;
        assert(ids@.take(0) =~= Seq::<ItemId>::empty());
        assert(lease_views_v(out@) =~= Seq::<LeaseViewV>::empty());
        while i < ids.len()
            invariant
                i <= ids@.len(),
                shown == self@.items.restrict(self@.leased),
                lease_views_v(out@) == picked(shown, ids@.take(i as int), live_lease()),
            decreases ids@.len() - i,
        {
            proof {
                assert(ids@.take(i as int + 1).drop_last() =~= ids@.take(i as int));
                assert(ids@.take(i as int + 1).last() == ids@[i as int]);
            }
            if self.leased_ids.contains(&ids[i]) {
                match self.record(ids[i]) {
                    None => {},
                    Some(rec) => match rec.lease_view() {
                        None => {},
                        Some(v) => {
                            let ghost before = out@;
                            out.push(v);
                            assert(lease_views_v(out@) =~= lease_views_v(before).push(v@));
                        },
                    },
                }
            }
            i = i + 1;
        }
        assert(ids@.take(i as int) =~= ids@);
        out
    }

    /// How many leases ran out before a time.
    fn count_run_out(&self, now: UtcTimestamp) -> (r: usize)
        ensures
            r <= listing_of::<(UtcTimestamp, u64)>(self@.by_expiry).len(),
            run_out(listing_of::<(UtcTimestamp, u64)>(self@.by_expiry), now) == listing_of::<
                (UtcTimestamp, u64),
            >(self@.by_expiry).take(r as int),
    {
        let n = self.ordinary_leases_by_expiry.len();
        let ghost l = self.ordinary_leases_by_expiry.listing();
        let bound: (UtcTimestamp, u64) = (now, 0);
        let at = self.ordinary_leases_by_expiry.count_below(&bound);
        proof {
            assert forall|i: int| 0 <= i < l.len() implies (i < at <==> ts_lt(
                (#[trigger] l[i]).0,
                now,
            )) by {
                assert(i < at <==> <(UtcTimestamp, u64)>::kless(l[i], (now, 0u64)));
            }
            lemma_run_out(l, now, at as int);
        }
        at
    }

    /// The items whose lease ran out before a time, the first to do so first.
    pub fn expired_leases(&self, now: UtcTimestamp) -> (r: Vec<ItemId>)
        ensures
            r@ == run_out(
                listing_of::<(UtcTimestamp, u64)>(self@.by_expiry),
                now,
            ).map_values(|p: (UtcTimestamp, ItemId)| p.1),
    {
        let end = self.count_run_out(now);
        let n = self.ordinary_leases_by_expiry.len();
        let ghost l = self.ordinary_leases_by_expiry.listing();
        let ghost all = l.take(end as int).map_values(|p: (UtcTimestamp, ItemId)| p.1);
        let mut out: Vec<ItemId> = Vec::new();
        let mut i: usize = 0;
        while i < end
            invariant
                i <= end <= l.len(),
                l == self.ordinary_leases_by_expiry.listing(),
                all == l.take(end as int).map_values(|p: (UtcTimestamp, ItemId)| p.1),
                out@ == all.take(i as int),
            decreases end - i,
        {
            out.push(self.ordinary_leases_by_expiry.at(i).1);
            assert(all.take(i as int + 1) =~= all.take(i as int).push(all[i as int]));
            i = i + 1;
        }
        assert(all.take(i as int) =~= all);
        out
    }

    /// Up to `limit` leases that ran out before a time, from where a sweep stopped. The second result is
    /// the number of leases that were looked at.
    pub fn expired_leases_after(
        &self,
        now: UtcTimestamp,
        after: Option<SweepCursor>,
        limit: usize,
    ) -> (r: (Vec<(UtcTimestamp, ItemId)>, usize))
        requires
            after is Some ==> ts_le(after->Some_0.0, now),
        ensures
            r.0@ == first_of(
                after_cursor(
                    run_out(listing_of::<(UtcTimestamp, u64)>(self@.by_expiry), now),
                    after,
                ),
                limit as nat,
            ),
            r.1 == r.0@.len(),
    {
        let end = self.count_run_out(now);
        let n = self.ordinary_leases_by_expiry.len();
        let ghost l = self.ordinary_leases_by_expiry.listing();
        let ghost due_now = l.take(end as int);
        let from = match after {
            None => 0,
            Some(c) => {
                let at = match c.1 {
                    Standing::Above => {
                        let bound: (UtcTimestamp, u64) = (c.0, 0);
                        self.ordinary_leases_by_expiry.count_below(&bound)
                    },
                    Standing::Same => {
                        let bound: (UtcTimestamp, u64) = (c.0, c.2);
                        self.ordinary_leases_by_expiry.count_through(&bound)
                    },
                    Standing::Below => {
                        let bound: (UtcTimestamp, u64) = (c.0, u64::MAX);
                        self.ordinary_leases_by_expiry.count_through(&bound)
                    },
                };
                let from = if at < end {
                    at
                } else {
                    end
                };
                proof {
                    assert forall|i: int| 0 <= i < due_now.len() implies (i < from
                        <==> !past_cursor(c, #[trigger] due_now[i])) by {
                        assert(due_now[i] == l[i]);
                        match c.1 {
                            Standing::Above => {
                                assert(i < at <==> <(UtcTimestamp, u64)>::kless(l[i], (c.0, 0u64)));
                            },
                            Standing::Same => {
                                assert(i < at <==> !<(UtcTimestamp, u64)>::kless((c.0, c.2), l[i]));
                            },
                            Standing::Below => {
                                assert(i < at <==> !<(UtcTimestamp, u64)>::kless(
                                    (c.0, u64::MAX),
                                    l[i],
                                ));
                            },
                        }
                    }
                    lemma_after_cursor(due_now, c, from as int);
                }
                from
            },
        };
        let to = if end - from > limit {
            from + limit
        } else {
            end
        };
        let ghost rest = due_now.skip(from as int);
        assert(due_now.skip(0) =~= due_now);
        let mut out: Vec<(UtcTimestamp, ItemId)> = Vec::new();
        let mut i: usize = from;
        while i < to
            invariant
                from <= i <= to <= end <= l.len(),
                l == self.ordinary_leases_by_expiry.listing(),
                rest == l.take(end as int).skip(from as int),
                out@ == rest.take(i - from),
            decreases to - i,
        {
            let e = self.ordinary_leases_by_expiry.at(i);
            out.push((e.0, e.1));
            assert(rest.take(i - from + 1) =~= rest.take(i - from).push(rest[i - from]));
            i = i + 1;
        }
        assert(rest.take(to - from) =~= first_of(rest, limit as nat));
        let visited = out.len();
        (out, visited)
    }
}

/// A lease that is reported as run out did so strictly before the time.
pub proof fn law_reported_leases_have_run_out(l: Seq<(UtcTimestamp, ItemId)>, now: UtcTimestamp, k: int)
    requires
        ascending::<(UtcTimestamp, u64)>(l),
        0 <= k < run_out(l, now).len(),
    ensures
        ts_lt(run_out(l, now)[k].0, now),
    decreases l.len(),
{
    if l.len() > 0 && !ts_lt(l.last().0, now) {
        law_reported_leases_have_run_out(l.drop_last(), now, k);
    } else if k < l.len() - 1 {
        lemma_ascending_at::<(UtcTimestamp, u64)>(l, k, l.len() - 1);
    }
}

/// A lease that ran out before the time is reported.
pub proof fn law_run_out_leases_are_reported(l: Seq<(UtcTimestamp, ItemId)>, now: UtcTimestamp, k: int)
    requires
        ascending::<(UtcTimestamp, u64)>(l),
        0 <= k < l.len(),
        ts_lt(l[k].0, now),
    ensures
        k < run_out(l, now).len(),
        run_out(l, now)[k] == l[k],
    decreases l.len(),
{
    if !ts_lt(l.last().0, now) {
        law_run_out_leases_are_reported(l.drop_last(), now, k);
        assert(l.drop_last()[k] == l[k]);
    }
}

} // verus!
