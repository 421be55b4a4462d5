//! Which groups of a queue have work, and for how long it has waited.

use crate::item::{Item, ItemRecord};
use crate::model::{Model, gated};
use crate::order::{OrdMap, OrdSet, OrderKey, listing_of};
use crate::planning::{lemma_push_contains, next_version};
use crate::projection::{ProjectionData, gate_keys_blocked};
use crate::text::{clone_opt_text, opt_text};
use crate::types::{ItemId, ItemState, UtcTimestamp, ts_le, ts_lt};
use vstd::prelude::*;

verus! {

/// A group with work.
#[derive(Debug, PartialEq, Eq)]
pub struct ActiveScope {
    pub queue_id: String,
    pub group_key: Option<String>,
    pub oldest_eligible_age_ms: u64,
    pub eligible_count: Option<u64>,
    pub progress_bound_risk_count: Option<u64>,
}

pub ghost struct ScopeV {
    pub queue_id: Seq<char>,
    pub group_key: Option<Seq<char>>,
    pub oldest_eligible_age_ms: u64,
    pub eligible_count: Option<u64>,
    pub progress_bound_risk_count: Option<u64>,
}

impl ActiveScope {
    pub open spec fn view(&self) -> ScopeV {
        ScopeV {
            queue_id: self.queue_id@,
            group_key: opt_text(self.group_key),
            oldest_eligible_age_ms: self.oldest_eligible_age_ms,
            eligible_count: self.eligible_count,
            progress_bound_risk_count: self.progress_bound_risk_count,
        }
    }
}

pub open spec fn scopes_v(v: Seq<ActiveScope>) -> Seq<ScopeV> {
    v.map_values(|s: ActiveScope| s@)
}

/// The item could be claimed at that time, were the queue not paused.
pub open spec fn waits(m: Model, i: Item, now: UtcTimestamp) -> bool {
    i.state is Pending && !i.superseded && (i.not_before is None || ts_le(i.not_before->Some_0, now))
        && !gated(m.blocked_gates, i.gate_keys)
}

pub open spec fn ts_min(a: UtcTimestamp, b: UtcTimestamp) -> UtcTimestamp {
    if ts_lt(b, a) {
        b
    } else {
        a
    }
}

/// A group and the longest wait and number of its items.
pub type GroupTable = Map<Option<Seq<char>>, (UtcTimestamp, u64)>;

/// The groups of the items that wait.
pub open spec fn waiting_groups(m: Model, ids: Seq<ItemId>, now: UtcTimestamp) -> GroupTable
    decreases ids.len(),
{
    if ids.len() == 0 {
        Map::empty()
    } else {
        let before = waiting_groups(m, ids.drop_last(), now);
        let i = m.items[ids.last()];
        if !waits(m, i, now) {
            before
        } else if before.contains_key(i.group_key) {
            before.insert(
                i.group_key,
                (
                    ts_min(before[i.group_key].0, i.eligible_since),
                    next_version(before[i.group_key].1),
                ),
            )
        } else {
            before.insert(i.group_key, (i.eligible_since, 1))
        }
    }
}

pub open spec fn nanos_of_time(t: UtcTimestamp) -> int {
    t.seconds * 1_000_000_000 + t.nanoseconds
}

/// The milliseconds from one time to another, as far as 64 bits hold the nanoseconds.
pub open spec fn waited_ms(since: UtcTimestamp, now: UtcTimestamp) -> u64 {
    let d = nanos_of_time(now) - nanos_of_time(since);
    if d <= 0 {
        0
    } else {
        (d % 0x1_0000_0000_0000_0000 / 1_000_000) as u64
    }
}

/// The groups by their longest wait. Where two are the same, items without a group come first, and
/// groups by name.
pub open spec fn scope_order(t: GroupTable) -> Seq<(UtcTimestamp, Option<Seq<char>>)> {
    listing_of::<(UtcTimestamp, Option<String>)>(
        Set::new(
            |p: (UtcTimestamp, Option<Seq<char>>)| t.contains_key(p.1) && t[p.1].0 == p.0,
        ),
    )
}

/// The groups of a queue that have work.
pub open spec fn active_scopes(m: Model, queue_id: Seq<char>, now: UtcTimestamp) -> Seq<ScopeV> {
    let t = waiting_groups(m, listing_of::<u64>(m.items.dom()), now);
    scope_order(t).map_values(
        |p: (UtcTimestamp, Option<Seq<char>>)|
            ScopeV {
                queue_id,
                group_key: p.1,
                oldest_eligible_age_ms: waited_ms(p.0, now),
                eligible_count: Some(t[p.1].1),
                progress_bound_risk_count: None,
            },
    )
}

fn wait_of(since: UtcTimestamp, now: UtcTimestamp) -> (r: u64)
    ensures
        r == waited_ms(since, now),
{
    let a = now.seconds as i128 * 1_000_000_000 + now.nanoseconds as i128;
    let b = since.seconds as i128 * 1_000_000_000 + since.nanoseconds as i128;
    let d = a - b;
    if d <= 0 {
        0
    } else {
        ((d as u128) % 0x1_0000_0000_0000_0000u128 / 1_000_000) as u64
    }
}

impl ProjectionData {
    fn item_waits(&self, rec: &ItemRecord, now: UtcTimestamp) -> (r: bool)
        ensures
            r == waits(self@, rec@, now),
    {
        let pending = match rec.state {
            ItemState::Pending => true,
            _ => false,
        };
        if !pending || rec.superseded {
            return false;
        }
        let due_now = match rec.not_before {
            Some(t) => t.at_most(&now),
            None => true,
        };
        due_now && !gate_keys_blocked(&self.blocked_gates, &rec.gate_keys)
    }

    fn group_waits(&self, now: UtcTimestamp) -> (r: OrdMap<Option<String>, (UtcTimestamp, u64)>)
        ensures
            r@ == waiting_groups(self@, listing_of::<u64>(self@.items.dom()), now),
    {
        let ids = self.all_ids();
        let mut groups: OrdMap<Option<String>, (UtcTimestamp, u64)> = OrdMap::new();
        let mut i: usize = 0;
        assert(ids@.take(0) =~= Seq::<ItemId>::empty());
        while i < ids.len()
            invariant
                i <= ids@.len(),
                ids@.to_set() == self@.items.dom(),
                groups@ == waiting_groups(self@, ids@.take(i as int), now),
            decreases ids@.len() - i,
        {
            proof {
                assert(ids@.take(i as int + 1).drop_last() =~= ids@.take(i as int));
                assert(ids@.take(i as int + 1).last() == ids@[i as int]);
                assert(ids@.to_set().contains(ids@[i as int]));
            }
            match self.record(ids[i]) {
                None => {},
                Some(rec) => {
                    if self.item_waits(rec, now) {
                        let known = match groups.get(&rec.group_key) {
                            Some(g) => Some(*g),
                            None => None,
                        };
                        let key = clone_opt_text(&rec.group_key);
                        let entry = match known {
                            Some((oldest, count)) => {
                                let least = if rec.eligible_since.before(&oldest) {
                                    rec.eligible_since
                                } else {
                                    oldest
                                };
                                (least, count.saturating_add(1))
                            },
                            None => (rec.eligible_since, 1),
                        };
                        groups.insert(key, entry);
                    }
                },
            }
            i = i + 1;
        }
        assert(ids@.take(i as int) =~= ids@);
        groups
    }

    /// The groups of the queue that have work, the one that has waited longest first. A pause does not
    /// hide them.
    pub fn discover_active_scopes(&self, queue_id: &str, now: UtcTimestamp) -> (r: Vec<ActiveScope>)
        ensures
            scopes_v(r@) == active_scopes(self@, queue_id@, now),
    {
        let groups = self.group_waits(now);
        let ghost t = groups@;
        let n = groups.len();
        let ghost keys = groups.listing();
        let ghost want = Set::new(
            |p: (UtcTimestamp, Option<Seq<char>>)| t.contains_key(p.1) && t[p.1].0 == p.0,
        );
        let mut order: OrdSet<(UtcTimestamp, Option<String>)> = OrdSet::new();
        let mut i: usize = 0;
        while i < n
            invariant
                i <= n,
                n == keys.len(),
                n == groups.values().len(),
                t == groups@,
                keys == groups.listing(),
                forall|j: int|
                    0 <= j < n ==> groups@.contains_key(#[trigger] keys[j]) && groups@[keys[j]]
                        == groups.values()[j],
                forall|p: (UtcTimestamp, Option<Seq<char>>)| #[trigger]
                    order@.contains(p) <==> keys.take(i as int).contains(p.1) && t.contains_key(p.1)
                        && t[p.1].0 == p.0,
            decreases n - i,
        {
            let ghost prior = order@;
            let key = clone_opt_text(groups.key_at(i));
            let oldest = groups.value_at(i).0;
            let ghost kv = keys[i as int];
            assert(groups@.contains_key(kv));
            order.insert((oldest, key));
            proof {
                assert(keys.take(i as int + 1) =~= keys.take(i as int).push(kv));
                assert forall|p: (UtcTimestamp, Option<Seq<char>>)| #[trigger]
                    order@.contains(p) <==> keys.take(i as int + 1).contains(p.1) && t.contains_key(
                        p.1,
                    ) && t[p.1].0 == p.0 by {
                    lemma_push_contains(keys.take(i as int), kv, p.1);
                    assert(prior.contains(p) <==> keys.take(i as int).contains(p.1)
                        && t.contains_key(p.1) && t[p.1].0 == p.0);
                }
            }
            i = i + 1;
        }
        proof {
            assert(keys.take(i as int) =~= keys);
            assert forall|p: (UtcTimestamp, Option<Seq<char>>)| order@.contains(p) <==> want.contains(
                p,
            ) by {
                if t.contains_key(p.1) {
                    assert(keys.contains(p.1));
                }
            }
            assert(order@ =~= want);
        }
        let total = order.len();
        let ghost all = active_scopes(self@, queue_id@, now);
        let ghost l = order.listing();
        let mut out: Vec<ActiveScope> = Vec::new();
        let mut k: usize = 0;
        assert(scopes_v(out@) =~= all.take(0));
        while k < total
            invariant
                k <= total,
                total == l.len(),
                l == order.listing(),
                l == scope_order(t),
                t == groups@,
                t == waiting_groups(self@, listing_of::<u64>(self@.items.dom()), now),
                order@ == l.to_set(),
                forall|p: (UtcTimestamp, Option<Seq<char>>)| #[trigger]
                    order@.contains(p) ==> t.contains_key(p.1),
                all == active_scopes(self@, queue_id@, now),
                scopes_v(out@) == all.take(k as int),
            decreases total - k,
        {
            let p = order.at(k);
            assert(l.to_set().contains(l[k as int]));
            let count = match groups.get(&p.1) {
                Some(g) => g.1,
                None => 0,
            };
            let ghost before = out@;
            let s = ActiveScope {
                queue_id: queue_id.to_owned(),
                group_key: clone_opt_text(&p.1),
                oldest_eligible_age_ms: wait_of(p.0, now),
                eligible_count: Some(count),
                progress_bound_risk_count: None,
            };
            out.push(s);
            assert(scopes_v(out@) =~= scopes_v(before).push(s@));
            assert(all.take(k as int + 1) =~= all.take(k as int).push(all[k as int]));
            k = k + 1;
        }
        assert(all.take(k as int) =~= all);
        out
    }
}

/// A pause does not hide work: what waits does not depend on it.
pub proof fn law_pause_hides_no_work(m: Model, queue_id: Seq<char>, now: UtcTimestamp)
    ensures
        active_scopes(Model { paused: true, ..m }, queue_id, now) == active_scopes(
            Model { paused: false, ..m },
            queue_id,
            now,
        ),
{
    let a = Model { paused: true, ..m };
    let b = Model { paused: false, ..m };
    lemma_waits_same(a, b, listing_of::<u64>(m.items.dom()), now);
}

proof fn lemma_waits_same(a: Model, b: Model, ids: Seq<ItemId>, now: UtcTimestamp)
    requires
        a.items == b.items,
        a.blocked_gates == b.blocked_gates,
    ensures
        waiting_groups(a, ids, now) == waiting_groups(b, ids, now),
    decreases ids.len(),
{
    if ids.len() > 0 {
        lemma_waits_same(a, b, ids.drop_last(), now);
    }
}

} // verus!
