//! Finished items: how long they stay, and what still has to be told of them.

use crate::item::{Item, ItemRecord};
use crate::model::{Model, index_keys, purge_each, purged, run};
use crate::mutation::lemma_forgotten_frame;
use crate::order::{lemma_ascending_distinct, lemma_listing_exists, listing_of};
use crate::projection::ProjectionData;
use crate::typed::floor_div;
use crate::types::{CommandPosition, ItemId, PositionV, PurgeItemsCommand, QueueCommand, UtcTimestamp, position_precedes, ts_le};
use vstd::prelude::*;

verus! {

/// Whole milliseconds since the epoch.
pub open spec fn millis(t: UtcTimestamp) -> int {
    t.seconds * 1000 + t.nanoseconds as int / 1_000_000
}

pub fn timestamp_to_ms(ts: UtcTimestamp) -> (r: i128)
    ensures
        r == millis(ts),
        -0x1_0000_0000_0000_0000_0000 <= r <= 0x1_0000_0000_0000_0000_0000,
{
    ts.seconds as i128 * 1000 + (ts.nanoseconds / 1_000_000) as i128
}

/// Seconds as they are stored: past the end of the range they start again at its beginning.
pub open spec fn stored_seconds(s: int) -> i64 {
    if s > i64::MAX {
        (s - 0x1_0000_0000_0000_0000) as i64
    } else {
        s as i64
    }
}

/// A time that many milliseconds later, in whole milliseconds.
pub open spec fn millis_after(t: UtcTimestamp, ms: u64) -> UtcTimestamp {
    let total = millis(t) + ms;
    UtcTimestamp {
        seconds: stored_seconds(total / 1000),
        nanoseconds: (total % 1000 * 1_000_000) as u32,
    }
}

pub fn add_millis(ts: UtcTimestamp, ms: u64) -> (r: UtcTimestamp)
    ensures
        r == millis_after(ts, ms),
{
    let total = timestamp_to_ms(ts) + ms as i128;
    let seconds = floor_div(total, 1000);
    let rest = total - seconds * 1000;
    let nanoseconds = (rest * 1_000_000) as u32;
    if seconds > 0x7fff_ffff_ffff_ffff {
        let wrapped = seconds - 0x1_0000_0000_0000_0000;
        UtcTimestamp { seconds: wrapped as i64, nanoseconds }
    } else {
        UtcTimestamp { seconds: seconds as i64, nanoseconds }
    }
}

/// The item is finished and none replaced it.
pub open spec fn finished(i: Item) -> bool {
    i.state.terminal() && !i.superseded
}

/// The item need not be kept: its time is up, and where changes are told, its end has been.
pub open spec fn reapable(
    i: Item,
    now: UtcTimestamp,
    retention_ms: u64,
    emit: bool,
    cursor: Option<PositionV>,
) -> bool {
    i.terminal_at is Some && ts_le(millis_after(i.terminal_at->Some_0, retention_ms), now) && (!emit
        || (i.terminal_position is Some && cursor is Some && !position_precedes(
        cursor->Some_0,
        i.terminal_position->Some_0,
    )))
}

pub open spec fn cursor_v(c: Option<&CommandPosition>) -> Option<PositionV> {
    match c {
        Some(p) => Some(p@),
        None => None,
    }
}

pub fn terminal_is_reapable(
    rec: &ItemRecord,
    now: UtcTimestamp,
    terminal_retention_ms: u64,
    emit_change_records: bool,
    emission_cursor: Option<&CommandPosition>,
) -> (r: bool)
    ensures
        r == reapable(
            rec@,
            now,
            terminal_retention_ms,
            emit_change_records,
            cursor_v(emission_cursor),
        ),
{
    let terminal_at = match rec.terminal_at {
        None => return false,
        Some(t) => t,
    };
    if !add_millis(terminal_at, terminal_retention_ms).at_most(&now) {
        return false;
    }
    if !emit_change_records {
        return true;
    }
    match (&rec.terminal_position, emission_cursor) {
        (Some(p), Some(c)) => !c.precedes(p),
        _ => false,
    }
}

#[derive(Clone, Copy, PartialEq, Eq, Structural, Debug)]
pub struct TerminalEmissionMetrics {
    pub resident_terminal_count: u64,
    pub emission_lag_commands: u64,
    pub emission_oldest_unemitted_age_ms: u64,
}

/// The end of the item has not been told.
pub open spec fn untold(i: Item, cursor: Option<PositionV>) -> bool {
    finished(i) && i.terminal_position is Some && (cursor is None || position_precedes(
        cursor->Some_0,
        i.terminal_position->Some_0,
    ))
}

/// The age of a finished item in milliseconds, as far as 64 bits hold it.
pub open spec fn age_ms(i: Item, now: UtcTimestamp) -> u64 {
    if i.terminal_at is Some && millis(now) > millis(i.terminal_at->Some_0) {
        ((millis(now) - millis(i.terminal_at->Some_0)) % 0x1_0000_0000_0000_0000) as u64
    } else {
        0
    }
}

/// Finished items, those among them that have not been told, and the greatest age of these.
pub open spec fn emission(
    items: Map<ItemId, Item>,
    ids: Seq<ItemId>,
    now: UtcTimestamp,
    cursor: Option<PositionV>,
) -> (nat, nat, u64)
    decreases ids.len(),
{
    if ids.len() == 0 {
        (0, 0, 0)
    } else {
        let (n, lag, oldest) = emission(items, ids.drop_last(), now, cursor);
        let i = items[ids.last()];
        (
            if finished(i) {
                n + 1
            } else {
                n
            },
            if untold(i, cursor) {
                lag + 1
            } else {
                lag
            },
            if untold(i, cursor) && age_ms(i, now) > oldest {
                age_ms(i, now)
            } else {
                oldest
            },
        )
    }
}

fn is_finished(rec: &ItemRecord) -> (r: bool)
    ensures
        r == finished(rec@),
{
    rec.state.is_terminal() && !rec.superseded
}

fn is_untold(rec: &ItemRecord, cursor: Option<&CommandPosition>) -> (r: bool)
    ensures
        r == untold(rec@, cursor_v(cursor)),
{
    if !is_finished(rec) {
        return false;
    }
    match (&rec.terminal_position, cursor) {
        (None, _) => false,
        (Some(_), None) => true,
        (Some(p), Some(c)) => c.precedes(p),
    }
}

fn age_of(rec: &ItemRecord, now: UtcTimestamp) -> (r: u64)
    ensures
        r == age_ms(rec@, now),
{
    match rec.terminal_at {
        None => 0,
        Some(t) => {
            let now_ms = timestamp_to_ms(now);
            let terminal_ms = timestamp_to_ms(t);
            if now_ms > terminal_ms {
                let age = (now_ms - terminal_ms) as u128;
                (age % 0x1_0000_0000_0000_0000u128) as u64
            } else {
                0
            }
        },
    }
}

/// The finished items that need not be kept, by identifier.
pub open spec fn to_reap(
    items: Map<ItemId, Item>,
    ids: Seq<ItemId>,
    now: UtcTimestamp,
    retention_ms: u64,
    emit: bool,
    cursor: Option<PositionV>,
) -> Seq<ItemId>
    decreases ids.len(),
{
    if ids.len() == 0 {
        Seq::empty()
    } else {
        let before = to_reap(items, ids.drop_last(), now, retention_ms, emit, cursor);
        let i = items[ids.last()];
        if finished(i) && reapable(i, now, retention_ms, emit, cursor) {
            before.push(ids.last())
        } else {
            before
        }
    }
}

/// What is to be reaped is so for its own sake.
proof fn lemma_to_reap(
    items: Map<ItemId, Item>,
    ids: Seq<ItemId>,
    now: UtcTimestamp,
    retention_ms: u64,
    emit: bool,
    cursor: Option<PositionV>,
)
    requires
        ids.no_duplicates(),
    ensures
        to_reap(items, ids, now, retention_ms, emit, cursor).no_duplicates(),
        forall|id: ItemId| #[trigger]
            to_reap(items, ids, now, retention_ms, emit, cursor).contains(id) <==> ids.contains(id)
                && finished(items[id]) && reapable(items[id], now, retention_ms, emit, cursor),
    decreases ids.len(),
{
    let all = to_reap(items, ids, now, retention_ms, emit, cursor);
    if ids.len() > 0 {
        let less = ids.drop_last();
        let x = ids.last();
        lemma_to_reap(items, less, now, retention_ms, emit, cursor);
        let before = to_reap(items, less, now, retention_ms, emit, cursor);
        assert(ids =~= less.push(x));
        assert(!less.contains(x)) by {
            if less.contains(x) {
                let j = choose|j: int| 0 <= j < less.len() && less[j] == x;
                assert(ids[j] == ids[ids.len() - 1]);
            }
        }
        assert forall|id: ItemId| #[trigger] all.contains(id) <==> ids.contains(id) && finished(
            items[id],
        ) && reapable(items[id], now, retention_ms, emit, cursor) by {
            crate::planning::lemma_push_contains(less, x, id);
            crate::planning::lemma_push_contains(before, x, id);
            assert(before.contains(id) <==> less.contains(id) && finished(items[id]) && reapable(
                items[id],
                now,
                retention_ms,
                emit,
                cursor,
            ));
        }
        assert(!before.contains(x));
        assert forall|a: int, b: int|
            0 <= a < all.len() && 0 <= b < all.len() && a != b implies all[a] != all[b] by {
            if a < before.len() {
                assert(before.contains(before[a]));
            }
            if b < before.len() {
                assert(before.contains(before[b]));
            }
        }
    }
}

/// Purging items whose keys can be told succeeds and leaves the others.
proof fn lemma_purges_succeed(m: Model, n: Model, ids: Seq<ItemId>)
    requires
        ids.no_duplicates(),
        n.index_specs == m.index_specs,
        forall|a: int|
            0 <= a < ids.len() ==> n.items.contains_key(#[trigger] ids[a]) && n.items[ids[a]]
                == m.items[ids[a]] && index_keys(m, m.items[ids[a]].fields, m.items[ids[a]].entity) is Ok,
    ensures
        run(n, ids, purge_each()).1 is Ok,
        run(n, ids, purge_each()).0.items == n.items.remove_keys(ids.to_set()),
    decreases ids.len(),
{
    if ids.len() > 0 {
        let x = ids[0];
        let rest = ids.drop_first();
        assert(n.items.contains_key(ids[0]));
        let i = m.items[x];
        let n0 = Model { items: n.items.remove(x), ..n };
        lemma_forgotten_frame(n0, i);
        assert(index_keys(n0, i.fields, i.entity) == index_keys(m, i.fields, i.entity));
        let next = purged(n, x).0;
        assert(purge_each()(n, x) == purged(n, x));
        assert forall|a: int| 0 <= a < rest.len() implies next.items.contains_key(#[trigger] rest[a])
            && next.items[rest[a]] == m.items[rest[a]] && index_keys(
            m,
            m.items[rest[a]].fields,
            m.items[rest[a]].entity,
        ) is Ok by {
            assert(rest[a] == ids[a + 1]);
            assert(ids[0] != ids[a + 1]);
        }
        assert(rest.no_duplicates()) by {
            assert forall|a: int, b: int|
                0 <= a < rest.len() && 0 <= b < rest.len() && a != b implies rest[a] != rest[b] by {
                assert(rest[a] == ids[a + 1] && rest[b] == ids[b + 1]);
            }
        }
        lemma_purges_succeed(m, next, rest);
        assert(ids.to_set() =~= rest.to_set().insert(x)) by {
            assert forall|y: ItemId| ids.contains(y) <==> rest.contains(y) || y == x by {
                if ids.contains(y) {
                    let j = choose|j: int| 0 <= j < ids.len() && ids[j] == y;
                    if j > 0 {
                        assert(rest[j - 1] == y);
                    }
                }
                if rest.contains(y) {
                    let j = choose|j: int| 0 <= j < rest.len() && rest[j] == y;
                    assert(ids[j + 1] == y);
                }
                if y == x {
                    assert(ids[0] == y);
                }
            }
        }
        assert(n.items.remove(x).remove_keys(rest.to_set()) =~= n.items.remove_keys(ids.to_set()));
    } else {
        assert(n.items.remove_keys(ids.to_set()) =~= n.items);
    }
}

impl ProjectionData {
    /// How many finished items there are, and how far the telling of their ends lags.
    pub fn terminal_emission_metrics(
        &self,
        now: UtcTimestamp,
        emit_change_records: bool,
        emission_cursor: Option<&CommandPosition>,
    ) -> (r: TerminalEmissionMetrics)
        ensures
            ({
                let (n, lag, oldest) = emission(
                    self@.items,
                    listing_of::<u64>(self@.items.dom()),
                    now,
                    cursor_v(emission_cursor),
                );
                &&& r.resident_terminal_count == n
                &&& r.emission_lag_commands == (if emit_change_records {
                    lag
                } else {
                    0
                })
                &&& r.emission_oldest_unemitted_age_ms == (if emit_change_records {
                    oldest
                } else {
                    0
                })
            }),
    {
        let ids = self.all_ids();
        let ghost cursor = cursor_v(emission_cursor);
        let mut count: u64 = 0;
        let mut lag: u64 = 0;
        let mut oldest: u64 = 0;
        let mut i: usize = 0;
        assert(ids@.take(0) =~= Seq::<ItemId>::empty());
        while i < ids.len()
            invariant
                i <= ids@.len(),
                ids@.to_set() == self@.items.dom(),
                cursor == cursor_v(emission_cursor),
                count <= i,
                lag <= i,
                (count as nat, lag as nat, oldest) == emission(
                    self@.items,
                    ids@.take(i as int),
                    now,
                    cursor,
                ),
            decreases ids@.len() - i,
        {
            proof {
                assert(ids@.take(i as int + 1).drop_last() =~= ids@.take(i as int));
                assert(ids@.take(i as int + 1).last() == ids@[i as int]);
                assert(ids@.to_set().contains(ids@[i as int]));
            }
            match self.record(ids[i]) {
                None => {},
                Some(rec) => {
                    if is_finished(rec) {
                        count = count + 1;
                    }
                    if is_untold(rec, emission_cursor) {
                        lag = lag + 1;
                        let age = age_of(rec, now);
                        if age > oldest {
                            oldest = age;
                        }
                    }
                },
            }
            i = i + 1;
        }
        assert(ids@.take(i as int) =~= ids@);
        if !emit_change_records {
            return TerminalEmissionMetrics {
                resident_terminal_count: count,
                emission_lag_commands: 0,
                emission_oldest_unemitted_age_ms: 0,
            };
        }
        TerminalEmissionMetrics {
            resident_terminal_count: count,
            emission_lag_commands: lag,
            emission_oldest_unemitted_age_ms: oldest,
        }
    }

    /// Takes out the finished items that need not be kept, and tells which.
    pub fn reap_terminal_items(
        &mut self,
        now: UtcTimestamp,
        terminal_retention_ms: u64,
        emit_change_records: bool,
        emission_cursor: Option<&CommandPosition>,
    ) -> (r: Vec<ItemId>)
        requires
            forall|id: ItemId| #[trigger]
                old(self)@.items.contains_key(id) && finished(old(self)@.items[id]) && reapable(
                    old(self)@.items[id],
                    now,
                    terminal_retention_ms,
                    emit_change_records,
                    cursor_v(emission_cursor),
                ) ==> index_keys(
                    old(self)@,
                    old(self)@.items[id].fields,
                    old(self)@.items[id].entity,
                ) is Ok,
        ensures
            r@ == to_reap(
                old(self)@.items,
                listing_of::<u64>(old(self)@.items.dom()),
                now,
                terminal_retention_ms,
                emit_change_records,
                cursor_v(emission_cursor),
            ),
            final(self)@ == run(old(self)@, r@, purge_each()).0,
            final(self)@.items == old(self)@.items.remove_keys(r@.to_set()),
    {
        let ids = self.all_ids();
        let ghost cursor = cursor_v(emission_cursor);
        let ghost start = self@;
        let mut out: Vec<ItemId> = Vec::new();
        let mut copy: Vec<ItemId> = Vec::new();
        let mut i: usize = 0;
        assert(ids@.take(0) =~= Seq::<ItemId>::empty());
        while i < ids.len()
            invariant
                i <= ids@.len(),
                start == self@,
                ids@.to_set() == self@.items.dom(),
                cursor == cursor_v(emission_cursor),
                copy@ == out@,
                out@ == to_reap(
                    self@.items,
                    ids@.take(i as int),
                    now,
                    terminal_retention_ms,
                    emit_change_records,
                    cursor,
                ),
            decreases ids@.len() - i,
        {
            proof {
                assert(ids@.take(i as int + 1).drop_last() =~= ids@.take(i as int));
                assert(ids@.take(i as int + 1).last() == ids@[i as int]);
                assert(ids@.to_set().contains(ids@[i as int]));
            }
            match self.record(ids[i]) {
                None => {},
                Some(rec) => {
                    if is_finished(rec) && terminal_is_reapable(
                        rec,
                        now,
                        terminal_retention_ms,
                        emit_change_records,
                        emission_cursor,
                    ) {
                        out.push(ids[i]);
                        copy.push(ids[i]);
                    }
                },
            }
            i = i + 1;
        }
        proof {
            assert(ids@.take(i as int) =~= ids@);
            lemma_ascending_distinct::<u64>(ids@);
            lemma_to_reap(
                start.items,
                ids@,
                now,
                terminal_retention_ms,
                emit_change_records,
                cursor,
            );
            assert forall|a: int| 0 <= a < out@.len() implies start.items.contains_key(
                #[trigger] out@[a],
            ) && index_keys(
                start,
                start.items[out@[a]].fields,
                start.items[out@[a]].entity,
            ) is Ok by {
                assert(out@.contains(out@[a]));
                assert(ids@.to_set().contains(out@[a]));
            }
            lemma_purges_succeed(start, start, out@);
        }
        let command = QueueCommand::PurgeItems(
            PurgeItemsCommand { item_ids: copy, force: true },
        );
        let _ = self.apply_command(&command);
        out
    }
}

/// An item that is reaped is finished, has been kept for its time, and its end has been told where
/// changes are.
pub proof fn law_only_spent_items_are_reaped(
    m: Model,
    now: UtcTimestamp,
    retention_ms: u64,
    emit: bool,
    cursor: Option<PositionV>,
    id: ItemId,
)
    requires
        m.items.dom().finite(),
        to_reap(m.items, listing_of::<u64>(m.items.dom()), now, retention_ms, emit, cursor).contains(
            id,
        ),
    ensures
        m.items.contains_key(id),
        finished(m.items[id]),
        m.items[id].terminal_at is Some,
        ts_le(millis_after(m.items[id].terminal_at->Some_0, retention_ms), now),
        emit ==> !untold(m.items[id], cursor),
{
    let ids = listing_of::<u64>(m.items.dom());
    lemma_listing_exists::<u64>(m.items.dom());
    lemma_ascending_distinct::<u64>(ids);
    lemma_to_reap(m.items, ids, now, retention_ms, emit, cursor);
    assert(ids.to_set().contains(id));
}

} // verus!
