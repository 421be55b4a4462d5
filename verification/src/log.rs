//! The log of a queue's committed commands, with its high-water mark and snapshots.

use crate::model::{applied, fits};
use crate::projection::ProjectionData;
use crate::shared::share;
use crate::text::{clone_bytes, numeral, push_u64, same_text};
use crate::types::{CommandEnvelope, CommandPosition, EngineError, EngineResult, ErrorV, PositionV, QueueKey, QueueV, clone_opt_position, opt_position, outcome, position_precedes};
use std::sync::Arc;
use vstd::prelude::*;
use vstd::string::*;

verus! {

/// A projection as it was stored at a position.
pub struct ProjectionSnapshot {
    pub payload: Vec<u8>,
}

impl ProjectionSnapshot {
    pub fn duplicate(&self) -> (r: ProjectionSnapshot)
        ensures
            r.payload@ == self.payload@,
    {
        ProjectionSnapshot { payload: clone_bytes(&self.payload) }
    }
}

/// Where a snapshot is found, and the position that it covers.
#[derive(Debug)]
pub struct SnapshotRef {
    pub queue: QueueKey,
    pub position: CommandPosition,
    pub ref_id: String,
}

pub ghost struct SnapshotV {
    pub queue: QueueV,
    pub position: PositionV,
    pub ref_id: Seq<char>,
}

impl SnapshotRef {
    pub open spec fn view(&self) -> SnapshotV {
        SnapshotV { queue: self.queue@, position: self.position@, ref_id: self.ref_id@ }
    }

    pub fn duplicate(&self) -> (r: SnapshotRef)
        ensures
            r@ == self@,
    {
        SnapshotRef {
            queue: self.queue.duplicate(),
            position: self.position.duplicate(),
            ref_id: self.ref_id.clone(),
        }
    }
}

/// A stretch of a log, and where the next one starts.
pub struct CommandPage {
    pub entries: Vec<(CommandPosition, Arc<CommandEnvelope>)>,
    pub next: Option<CommandPosition>,
}

/// The command log of one queue.
pub struct LogData {
    pub epoch: u64,
    /// Each command with the epoch it was appended under.
    pub entries: Vec<(u64, Arc<CommandEnvelope>)>,
    /// The position up to which commands are durable. It is kept, not counted from the entries, and
    /// so outlives them.
    pub high_water: Option<CommandPosition>,
    /// The sequence of the first entry.
    pub entry_base_seq: u64,
    pub snapshots: Vec<(SnapshotRef, ProjectionSnapshot)>,
}

/// A log by what it holds.
pub ghost struct LogV {
    pub epoch: u64,
    pub entries: Seq<(u64, Arc<CommandEnvelope>)>,
    pub high_water: Option<PositionV>,
    pub base: u64,
    pub snapshots: Seq<(SnapshotV, Seq<u8>)>,
}

pub open spec fn snapshots_v(s: Seq<(SnapshotRef, ProjectionSnapshot)>) -> Seq<
    (SnapshotV, Seq<u8>),
> {
    s.map_values(|x: (SnapshotRef, ProjectionSnapshot)| (x.0@, x.1.payload@))
}

/// The sum, or the greatest number.
pub open spec fn capped(n: int) -> u64 {
    if n > u64::MAX {
        u64::MAX
    } else {
        n as u64
    }
}

fn cap_sum(a: u64, b: u64) -> (r: u64)
    ensures
        r == capped(a + b),
{
    if a > u64::MAX - b {
        u64::MAX
    } else {
        a + b
    }
}

/// The position of the entry at a place.
pub open spec fn position_at(l: LogV, q: QueueV, i: int) -> PositionV {
    PositionV { queue: q, backend_epoch: l.entries[i].0, sequence: capped(l.base + i) }
}

pub open spec fn positions_v(p: Seq<CommandPosition>) -> Seq<PositionV> {
    p.map_values(|x: CommandPosition| x@)
}

/// The positions that appended commands get.
pub open spec fn new_positions(l: LogV, q: QueueV, n: nat) -> Seq<PositionV> {
    Seq::new(
        n,
        |i: int|
            PositionV {
                queue: q,
                backend_epoch: l.epoch,
                sequence: capped(l.base + l.entries.len() + i),
            },
    )
}

/// Commands under the log's epoch.
pub open spec fn stamped(epoch: u64, commands: Seq<Arc<CommandEnvelope>>) -> Seq<
    (u64, Arc<CommandEnvelope>),
> {
    commands.map_values(|c: Arc<CommandEnvelope>| (epoch, c))
}

/// A log with more commands at its end.
pub open spec fn appended(l: LogV, q: QueueV, commands: Seq<Arc<CommandEnvelope>>) -> LogV {
    LogV {
        entries: l.entries + stamped(l.epoch, commands),
        high_water: if commands.len() == 0 {
            l.high_water
        } else {
            Some(new_positions(l, q, commands.len()).last())
        },
        ..l
    }
}

/// The place in the log of the first entry after a position.
pub open spec fn place_after(l: LogV, from: Option<PositionV>) -> nat {
    match from {
        None => 0,
        Some(p) => {
            let next = capped(p.sequence + 1);
            let k = if next < l.base {
                0
            } else {
                (next - l.base) as nat
            };
            if k > l.entries.len() {
                l.entries.len()
            } else {
                k
            }
        },
    }
}

/// Where a page ends.
pub open spec fn page_end(l: LogV, start: nat, limit: nat) -> nat {
    if start + limit > l.entries.len() {
        l.entries.len()
    } else {
        start + limit
    }
}

pub open spec fn page_v(e: Seq<(CommandPosition, Arc<CommandEnvelope>)>) -> Seq<
    (PositionV, Arc<CommandEnvelope>),
> {
    e.map_values(|x: (CommandPosition, Arc<CommandEnvelope>)| (x.0@, x.1))
}

/// The entries from one place to another, each at its position.
pub open spec fn stretch(l: LogV, q: QueueV, from: nat, to: nat) -> Seq<
    (PositionV, Arc<CommandEnvelope>),
> {
    Seq::new(
        (to - from) as nat,
        |i: int| (position_at(l, q, from + i), l.entries[from + i].1),
    )
}

/// The mark may move on, or stay.
pub open spec fn mark_allowed(cur: Option<PositionV>, p: PositionV) -> bool {
    match cur {
        None => true,
        Some(c) => position_precedes(c, p) || c == p,
    }
}

/// A log whose mark was set. An empty log goes on after the mark, under at least its epoch.
pub open spec fn marked(l: LogV, p: PositionV) -> LogV {
    LogV {
        high_water: Some(p),
        base: if l.entries.len() == 0 {
            capped(p.sequence + 1)
        } else {
            l.base
        },
        epoch: if l.entries.len() == 0 && p.backend_epoch > l.epoch {
            p.backend_epoch
        } else {
            l.epoch
        },
        ..l
    }
}

/// The last snapshot at or before a position.
pub open spec fn last_covering(s: Seq<(SnapshotV, Seq<u8>)>, p: PositionV) -> Option<SnapshotV>
    decreases s.len(),
{
    if s.len() == 0 {
        None
    } else if position_precedes(s.last().0.position, p) || s.last().0.position == p {
        Some(s.last().0)
    } else {
        last_covering(s.drop_last(), p)
    }
}

/// The first snapshot under a name.
pub open spec fn named_snapshot(s: Seq<(SnapshotV, Seq<u8>)>, name: Seq<char>) -> Option<Seq<u8>>
    decreases s.len(),
{
    if s.len() == 0 {
        None
    } else if s[0].0.ref_id == name {
        Some(s[0].1)
    } else {
        named_snapshot(s.drop_first(), name)
    }
}

pub open spec fn opt_snapshot(s: Option<SnapshotRef>) -> Option<SnapshotV> {
    match s {
        Some(x) => Some(x@),
        None => None,
    }
}

impl LogData {
    pub open spec fn view(&self) -> LogV {
        LogV {
            epoch: self.epoch,
            entries: self.entries@,
            high_water: opt_position(self.high_water),
            base: self.entry_base_seq,
            snapshots: snapshots_v(self.snapshots@),
        }
    }

    /// An empty log.
    pub fn new() -> (r: LogData)
        ensures
            r@ == (LogV {
                epoch: 0,
                entries: Seq::empty(),
                high_water: None,
                base: 0,
                snapshots: Seq::empty(),
            }),
    {
        let r = LogData {
            epoch: 0,
            entries: Vec::new(),
            high_water: None,
            entry_base_seq: 0,
            snapshots: Vec::new(),
        };
        assert(snapshots_v(r.snapshots@) =~= Seq::<(SnapshotV, Seq<u8>)>::empty());
        r
    }

    /// Appends commands under an epoch and moves the mark to the last of them. A stale epoch is
    /// refused, and nothing is appended.
    pub fn append(
        &mut self,
        shard: &QueueKey,
        commands: &Vec<Arc<CommandEnvelope>>,
        expected_epoch: u64,
    ) -> (r: EngineResult<Vec<CommandPosition>>)
        ensures
            match r {
                Ok(p) => {
                    &&& expected_epoch == old(self)@.epoch
                    &&& positions_v(p@) == new_positions(old(self)@, shard@, commands@.len())
                    &&& final(self)@ == appended(old(self)@, shard@, commands@)
                },
                Err(e) => {
                    &&& expected_epoch != old(self)@.epoch
                    &&& e@ == ErrorV::EpochFenced
                    &&& final(self)@ == old(self)@
                },
            },
    {
        if expected_epoch != self.epoch {
            return Err(EngineError::EpochFenced);
        }
        let ghost start = self@;
        let ghost all = new_positions(start, shard@, commands@.len());
        let ghost stamps = stamped(start.epoch, commands@);
        let mut positions: Vec<CommandPosition> = Vec::new();
        let mut i: usize = 0;
        proof {
            assert(positions_v(positions@) =~= all.take(0));
            assert(start.entries + stamps.take(0) =~= start.entries);
        }
        while i < commands.len()
            invariant
                i <= commands@.len(),
                start == old(self)@,
                all == new_positions(start, shard@, commands@.len()),
                stamps == stamped(start.epoch, commands@),
                positions_v(positions@) == all.take(i as int),
                self@ == (LogV {
                    entries: start.entries + stamps.take(i as int),
                    high_water: if i == 0 {
                        start.high_water
                    } else {
                        Some(all[i - 1])
                    },
                    ..start
                }),
            decreases commands@.len() - i,
        {
            let seq = cap_sum(self.entry_base_seq, self.entries.len() as u64);
            let ghost before = positions@;
            self.entries.push((self.epoch, share(&commands[i])));
            let pos = CommandPosition::new(shard.duplicate(), self.epoch, seq);
            self.high_water = Some(pos.duplicate());
            positions.push(pos);
            proof {
                assert(positions_v(positions@) =~= positions_v(before).push(pos@));
                assert(all.take(i as int + 1) =~= all.take(i as int).push(all[i as int]));
                assert(stamps.take(i as int + 1) =~= stamps.take(i as int).push(stamps[i as int]));
                assert(self@.entries =~= start.entries + stamps.take(i as int + 1));
            }
            i = i + 1;
        }
        proof {
            assert(all.take(i as int) =~= all);
            assert(stamps.take(i as int) =~= stamps);
        }
        Ok(positions)
    }

    pub fn epoch(&self) -> (r: u64)
        ensures
            r == self@.epoch,
    {
        self.epoch
    }

    /// Fences all earlier owners.
    pub fn advance_epoch(&mut self) -> (r: u64)
        requires
            old(self)@.epoch < u64::MAX,
        ensures
            r == old(self)@.epoch + 1,
            final(self)@ == (LogV { epoch: r, ..old(self)@ }),
    {
        self.epoch = self.epoch + 1;
        self.epoch
    }

    /// A page of commands after a position, each with the epoch it was appended under.
    pub fn read_from(&self, shard: &QueueKey, from: &Option<CommandPosition>, limit: usize) -> (r:
        CommandPage)
        ensures
            ({
                let start = place_after(self@, opt_position(*from));
                let end = page_end(self@, start, limit as nat);
                &&& page_v(r.entries@) == stretch(self@, shard@, start, end)
                &&& opt_position(r.next) == (if end < self@.entries.len() {
                    Some(position_at(self@, shard@, end as int))
                } else {
                    None
                })
            }),
    {
        let n = self.entries.len();
        let start: usize = match from {
            None => 0,
            Some(p) => {
                let next = cap_sum(p.sequence, 1);
                if next < self.entry_base_seq {
                    0
                } else if next - self.entry_base_seq >= n as u64 {
                    n
                } else {
                    (next - self.entry_base_seq) as usize
                }
            },
        };
        let end: usize = if limit >= n - start {
            n
        } else {
            start + limit
        };
        let ghost all = stretch(self@, shard@, start as nat, end as nat);
        let mut entries: Vec<(CommandPosition, Arc<CommandEnvelope>)> = Vec::new();
        let mut i: usize = start;
        assert(page_v(entries@) =~= all.take(0));
        while i < end
            invariant
                start <= i <= end <= self.entries@.len(),
                all == stretch(self@, shard@, start as nat, end as nat),
                page_v(entries@) == all.take(i - start),
            decreases end - i,
        {
            let ghost before = entries@;
            let pos = CommandPosition::new(
                shard.duplicate(),
                self.entries[i].0,
                cap_sum(self.entry_base_seq, i as u64),
            );
            let env = share(&self.entries[i].1);
            entries.push((pos, env));
            proof {
                assert(page_v(entries@) =~= page_v(before).push((pos@, env)));
                assert(all.take(i - start + 1) =~= all.take(i - start).push(all[i - start]));
            }
            i = i + 1;
        }
        assert(all.take(end - start) =~= all);
        let next = if end < n {
            Some(
                CommandPosition::new(
                    shard.duplicate(),
                    self.entries[end].0,
                    cap_sum(self.entry_base_seq, end as u64),
                ),
            )
        } else {
            None
        };
        CommandPage { entries, next }
    }

    pub fn high_water(&self) -> (r: Option<CommandPosition>)
        ensures
            opt_position(r) == self@.high_water,
    {
        clone_opt_position(self.high_water.as_ref())
    }

    /// Sets the mark. It never goes back.
    pub fn set_high_water(&mut self, position: CommandPosition) -> (r: EngineResult<()>)
        ensures
            match r {
                Ok(_) => {
                    &&& mark_allowed(old(self)@.high_water, position@)
                    &&& final(self)@ == marked(old(self)@, position@)
                },
                Err(e) => {
                    &&& !mark_allowed(old(self)@.high_water, position@)
                    &&& e@ == ErrorV::Invalid("high-water regression"@)
                    &&& final(self)@ == old(self)@
                },
            },
    {
        match &self.high_water {
            Some(cur) => {
                if !cur.precedes(&position) && !cur.same(&position) {
                    return Err(EngineError::Invalid("high-water regression"));
                }
            },
            None => {},
        }
        if self.entries.len() == 0 {
            self.entry_base_seq = cap_sum(position.sequence, 1);
            if position.backend_epoch > self.epoch {
                self.epoch = position.backend_epoch;
            }
        }
        self.high_water = Some(position);
        Ok(())
    }

    /// Keeps a snapshot, under a name of its own.
    pub fn write_snapshot(
        &mut self,
        shard: &QueueKey,
        position: CommandPosition,
        snapshot: ProjectionSnapshot,
    ) -> (r: SnapshotRef)
        ensures
            r@ == (SnapshotV {
                queue: shard@,
                position: position@,
                ref_id: "snap-"@ + numeral(old(self)@.snapshots.len()),
            }),
            final(self)@ == (LogV {
                snapshots: old(self)@.snapshots.push((r@, snapshot.payload@)),
                ..old(self)@
            }),
    {
        let ghost before = self.snapshots@;
        let mut ref_id = "snap-".to_owned();
        push_u64(&mut ref_id, self.snapshots.len() as u64);
        let snap_ref = SnapshotRef { queue: shard.duplicate(), position, ref_id };
        let kept = snap_ref.duplicate();
        self.snapshots.push((kept, snapshot));
        assert(snapshots_v(self.snapshots@) =~= snapshots_v(before).push(
            (snap_ref@, snapshot.payload@),
        ));
        snap_ref
    }

    pub fn latest_snapshot(&self) -> (r: Option<SnapshotRef>)
        ensures
            opt_snapshot(r) == (if self@.snapshots.len() == 0 {
                None
            } else {
                Some(self@.snapshots.last().0)
            }),
    {
        let n = self.snapshots.len();
        if n == 0 {
            None
        } else {
            Some(self.snapshots[n - 1].0.duplicate())
        }
    }

    /// The last snapshot that covers no more than a position.
    pub fn snapshot_at_or_before(&self, position: &CommandPosition) -> (r: Option<SnapshotRef>)
        ensures
            opt_snapshot(r) == last_covering(self@.snapshots, position@),
    {
        let ghost all = self@.snapshots;
        let mut i: usize = self.snapshots.len();
        assert(all.take(i as int) =~= all);
        while i > 0
            invariant
                i <= self.snapshots@.len(),
                all == snapshots_v(self.snapshots@),
                all == self@.snapshots,
                last_covering(all, position@) == last_covering(all.take(i as int), position@),
            decreases i,
        {
            proof {
                assert(all.take(i as int).drop_last() =~= all.take(i as int - 1));
                assert(all.take(i as int).last() == all[i as int - 1]);
            }
            let r = &self.snapshots[i - 1].0;
            if r.position.precedes(position) || r.position.same(position) {
                return Some(r.duplicate());
            }
            i = i - 1;
        }
        None
    }

    /// The snapshot under a name.
    pub fn read_snapshot(&self, snapshot_ref: &SnapshotRef) -> (r: EngineResult<ProjectionSnapshot>)
        ensures
            match r {
                Ok(s) => named_snapshot(self@.snapshots, snapshot_ref@.ref_id) == Some(
                    s.payload@,
                ),
                Err(e) => e@ == ErrorV::NotFound && named_snapshot(
                    self@.snapshots,
                    snapshot_ref@.ref_id,
                ) is None,
            },
    {
        let ghost all = self@.snapshots;
        let mut i: usize = 0;
        assert(all.skip(0) =~= all);
        while i < self.snapshots.len()
            invariant
                i <= self.snapshots@.len(),
                all == snapshots_v(self.snapshots@),
                all == self@.snapshots,
                named_snapshot(all, snapshot_ref@.ref_id) == named_snapshot(
                    all.skip(i as int),
                    snapshot_ref@.ref_id,
                ),
            decreases self.snapshots@.len() - i,
        {
            proof {
                assert(all.skip(i as int)[0] == all[i as int]);
                assert(all.skip(i as int).drop_first() =~= all.skip(i as int + 1));
            }
            if same_text(self.snapshots[i].0.ref_id.as_str(), snapshot_ref.ref_id.as_str()) {
                return Ok(self.snapshots[i].1.duplicate());
            }
            i = i + 1;
        }
        Err(EngineError::NotFound)
    }
}

/// Appends a command, then applies it. What could be refused must have been checked before: nothing
/// is taken back. An owner that names an epoch other than the log's is fenced, and nothing happens.
pub fn commit(
    log: &mut LogData,
    proj: &mut ProjectionData,
    shard: &QueueKey,
    env: Arc<CommandEnvelope>,
    expected_epoch: Option<u64>,
) -> (r: EngineResult<()>)
    requires
        fits(old(proj)@, env.command),
    ensures
        expected_epoch is Some && expected_epoch->Some_0 != old(log)@.epoch ==> {
            &&& outcome(r) == Err::<(), ErrorV>(ErrorV::EpochFenced)
            &&& final(log)@ == old(log)@
            &&& final(proj)@ == old(proj)@
        },
        expected_epoch is None || expected_epoch->Some_0 == old(log)@.epoch ==> {
            &&& final(log)@ == appended(
                old(log)@,
                shard@,
                Seq::<Arc<CommandEnvelope>>::empty().push(env),
            )
            &&& (final(proj)@, outcome(r)) == applied(old(proj)@, None, None, env.command)
        },
{
    let epoch = log.epoch();
    match expected_epoch {
        Some(e) => {
            if e != epoch {
                return Err(EngineError::EpochFenced);
            }
        },
        None => {},
    }
    let mut commands: Vec<Arc<CommandEnvelope>> = Vec::new();
    commands.push(share(&env));
    assert(commands@ =~= Seq::<Arc<CommandEnvelope>>::empty().push(env));
    match log.append(shard, &commands, epoch) {
        Err(e) => return Err(e),
        Ok(_) => {},
    }
    proj.apply_command(&env.command)
}

/// The positions of a log's entries go up, across epochs too, as long as the sequences last.
pub proof fn law_sequences_are_continuous(l: LogV, q: QueueV, i: int)
    requires
        0 <= i,
        i + 1 < l.entries.len(),
        l.base + l.entries.len() <= u64::MAX,
    ensures
        position_at(l, q, i + 1).sequence == position_at(l, q, i).sequence + 1,
{
}

/// Epochs never fall along a log that is only appended to under its current epoch: each append keeps
/// what was there and stamps the new commands with an epoch that no entry exceeds.
pub proof fn law_append_keeps_epochs_in_order(
    l: LogV,
    q: QueueV,
    commands: Seq<Arc<CommandEnvelope>>,
)
    requires
        forall|i: int, j: int|
            0 <= i <= j < l.entries.len() ==> (#[trigger] l.entries[i]).0 <= (
            #[trigger] l.entries[j]).0,
        forall|i: int| 0 <= i < l.entries.len() ==> (#[trigger] l.entries[i]).0 <= l.epoch,
    ensures
        forall|i: int, j: int|
            0 <= i <= j < appended(l, q, commands).entries.len() ==> (#[trigger] appended(
                l,
                q,
                commands,
            ).entries[i]).0 <= (#[trigger] appended(l, q, commands).entries[j]).0,
        forall|i: int|
            0 <= i < l.entries.len() ==> #[trigger] appended(l, q, commands).entries[i]
                == l.entries[i],
{
}

/// A read after the last position before an append gives back what was appended, in order.
pub proof fn law_read_gives_back_appends(l: LogV, q: QueueV, commands: Seq<Arc<CommandEnvelope>>)
    requires
        l.base + l.entries.len() + commands.len() <= u64::MAX,
        l.entries.len() > 0,
    ensures
        ({
            let after = appended(l, q, commands);
            let from = Some(position_at(l, q, l.entries.len() - 1));
            let start = place_after(after, from);
            let page = stretch(after, q, start, page_end(after, start, commands.len()));
            &&& page.len() == commands.len()
            &&& forall|i: int|
                0 <= i < commands.len() ==> (#[trigger] page[i]).1 == commands[i] && page[i].0
                    == new_positions(l, q, commands.len())[i]
        }),
{
    let after = appended(l, q, commands);
    assert(after.entries.len() == l.entries.len() + commands.len());
}

/// The mark never goes back: not by appending while the sequences last and the mark stands no later
/// than the log's end, and not by setting it.
pub proof fn law_mark_never_goes_back(l: LogV, q: QueueV, commands: Seq<Arc<CommandEnvelope>>)
    requires
        l.base + l.entries.len() + commands.len() <= u64::MAX,
        l.high_water is Some,
        l.high_water->Some_0.backend_epoch < l.epoch || (l.high_water->Some_0.backend_epoch
            == l.epoch && l.high_water->Some_0.sequence < l.base + l.entries.len()),
    ensures
        commands.len() > 0 ==> position_precedes(
            l.high_water->Some_0,
            appended(l, q, commands).high_water->Some_0,
        ),
        commands.len() == 0 ==> appended(l, q, commands).high_water == l.high_water,
{
}

/// A log that lost its entries keeps its mark, and once the mark is set again goes on after it.
pub proof fn law_mark_outlives_the_entries(l: LogV, q: QueueV, p: PositionV)
    requires
        l.high_water == Some(p),
        p.sequence < u64::MAX,
    ensures
        ({
            let bare = LogV { entries: Seq::empty(), ..l };
            &&& bare.high_water == Some(p)
            &&& marked(bare, p).high_water == Some(p)
            &&& new_positions(marked(bare, p), q, 1)[0].sequence == p.sequence + 1
            &&& position_precedes(p, new_positions(marked(bare, p), q, 1)[0])
        }),
{
}

/// What is read under the name of a snapshot that was just written is that snapshot, where names tell
/// snapshots apart.
pub proof fn law_snapshots_are_read_back(s: Seq<(SnapshotV, Seq<u8>)>, x: (SnapshotV, Seq<u8>))
    requires
        forall|i: int| 0 <= i < s.len() ==> (#[trigger] s[i]).0.ref_id != x.0.ref_id,
    ensures
        named_snapshot(s.push(x), x.0.ref_id) == Some(x.1),
    decreases s.len(),
{
    if s.len() > 0 {
        assert(s.push(x).drop_first() =~= s.drop_first().push(x));
        assert(s.push(x)[0] == s[0]);
        law_snapshots_are_read_back(s.drop_first(), x);
    } else {
        assert(s.push(x)[0] == x);
    }
}

} // verus!
