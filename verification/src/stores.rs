//! The logs and projections of many queues in memory.

use crate::claims::{ClaimCompatibility, ClaimUnit, RichClaimSelection, ids_outcome, item_claim, rich_claim, selection_outcome};
use crate::image::{ProjectionImage, defined, rebuilt};
use crate::log::{CommandPage, LogData, LogV, ProjectionSnapshot, SnapshotRef, SnapshotV, appended, last_covering, mark_allowed, marked, named_snapshot, new_positions, opt_snapshot, page_end, page_v, place_after, position_at, positions_v, stretch};
use crate::model::{Model, applied, fits};
use crate::order::OrdMap;
use crate::projection::ProjectionData;
use crate::reads::{ItemView, item_views_v, page_peeked};
use crate::text::{numeral, push_u64};
use crate::types::{CommandEnvelope, CommandPosition, EngineError, EngineResult, ErrorV, ItemId, PositionV, QueueDefinition, QueueKey, QueueMetrics, QueueV, UtcTimestamp, opt_position, outcome};
use std::sync::Arc;
use vstd::prelude::*;
use vstd::string::*;

verus! {

/// The command logs of many queues. They do not outlive the process.
pub struct MemoryLog {
    pub logs: OrdMap<QueueKey, LogData>,
}

pub open spec fn logs_v(logs: Map<QueueV, LogData>) -> Map<QueueV, LogV> {
    logs.map_values(|l: LogData| l@)
}

/// A log without commands.
pub open spec fn empty_log() -> LogV {
    LogV {
        epoch: 0,
        entries: Seq::empty(),
        high_water: None,
        base: 0,
        snapshots: Seq::empty(),
    }
}

impl MemoryLog {
    pub open spec fn view(&self) -> Map<QueueV, LogV> {
        logs_v(self.logs@)
    }

    pub fn new() -> (r: MemoryLog)
        ensures
            r@ == Map::<QueueV, LogV>::empty(),
    {
        let r = MemoryLog { logs: OrdMap::new() };
        assert(r@ =~= Map::<QueueV, LogV>::empty());
        r
    }

    /// Whether commands outlive the process.
    pub fn is_durable_log(&self) -> (r: bool)
        ensures
            r == false,
    {
        false
    }

    /// Begins a queue's log where there is none.
    pub fn ensure_shard(&mut self, shard: &QueueKey) -> (r: EngineResult<()>)
        ensures
            r is Ok,
            final(self)@ == (if old(self)@.contains_key(shard@) {
                old(self)@
            } else {
                old(self)@.insert(shard@, empty_log())
            }),
    {
        if !self.logs.contains_key(shard) {
            self.logs.insert(shard.duplicate(), LogData::new());
            assert(self@ =~= old(self)@.insert(shard@, empty_log()));
        }
        Ok(())
    }

    fn log_of(&self, shard: &QueueKey) -> (r: EngineResult<&LogData>)
        ensures
            match r {
                Ok(l) => self@.contains_key(shard@) && self@[shard@] == l@,
                Err(e) => !self@.contains_key(shard@) && e@ == ErrorV::NotFound,
            },
    {
        match self.logs.get(shard) {
            Some(l) => Ok(l),
            None => Err(EngineError::NotFound),
        }
    }

    pub fn current_epoch(&self, shard: &QueueKey) -> (r: EngineResult<u64>)
        ensures
            outcome(r) == (if self@.contains_key(shard@) {
                Ok(self@[shard@].epoch)
            } else {
                Err(ErrorV::NotFound)
            }),
    {
        match self.log_of(shard) {
            Ok(l) => Ok(l.epoch()),
            Err(e) => Err(e),
        }
    }

    /// Fences all earlier owners of a queue.
    pub fn acquire_epoch(&mut self, shard: &QueueKey) -> (r: EngineResult<u64>)
        requires
            old(self)@.contains_key(shard@) ==> old(self)@[shard@].epoch < u64::MAX,
        ensures
            match r {
                Ok(epoch) => {
                    &&& old(self)@.contains_key(shard@)
                    &&& epoch == old(self)@[shard@].epoch + 1
                    &&& final(self)@ == old(self)@.insert(
                        shard@,
                        LogV { epoch, ..old(self)@[shard@] },
                    )
                },
                Err(e) => {
                    &&& !old(self)@.contains_key(shard@)
                    &&& e@ == ErrorV::NotFound
                    &&& final(self)@ == old(self)@
                },
            },
    {
        match self.logs.take(shard) {
            None => {
                assert(self@ =~= old(self)@);
                Err(EngineError::NotFound)
            },
            Some(mut log) => {
                assert(old(self)@[shard@] == log@);
                let epoch = log.advance_epoch();
                self.logs.insert(shard.duplicate(), log);
                assert(self@ =~= old(self)@.insert(shard@, log@));
                Ok(epoch)
            },
        }
    }

    /// Appends commands to a queue's log.
    pub fn append(
        &mut self,
        shard: &QueueKey,
        commands: &Vec<Arc<CommandEnvelope>>,
        expected_epoch: u64,
    ) -> (r: EngineResult<Vec<CommandPosition>>)
        ensures
            match r {
                Ok(p) => {
                    &&& old(self)@.contains_key(shard@)
                    &&& expected_epoch == old(self)@[shard@].epoch
                    &&& positions_v(p@) == new_positions(
                        old(self)@[shard@],
                        shard@,
                        commands@.len(),
                    )
                    &&& final(self)@ == old(self)@.insert(
                        shard@,
                        appended(old(self)@[shard@], shard@, commands@),
                    )
                },
                Err(e) => {
                    &&& e@ == (if old(self)@.contains_key(shard@) {
                        ErrorV::EpochFenced
                    } else {
                        ErrorV::NotFound
                    })
                    &&& (old(self)@.contains_key(shard@) ==> expected_epoch
                        != old(self)@[shard@].epoch)
                    &&& final(self)@ == old(self)@
                },
            },
    {
        match self.logs.take(shard) {
            None => {
                assert(self@ =~= old(self)@);
                Err(EngineError::NotFound)
            },
            Some(mut log) => {
                assert(old(self)@[shard@] == log@);
                let r = log.append(shard, commands, expected_epoch);
                self.logs.insert(shard.duplicate(), log);
                assert(self@ =~= old(self)@.insert(shard@, log@));
                assert(r is Err ==> self@ =~= old(self)@);
                r
            },
        }
    }

    /// A page of a queue's commands.
    pub fn read_from(&self, shard: &QueueKey, from: &Option<CommandPosition>, limit: usize) -> (r:
        EngineResult<CommandPage>)
        ensures
            match r {
                Ok(page) => {
                    let l = self@[shard@];
                    let start = place_after(l, opt_position(*from));
                    let end = page_end(l, start, limit as nat);
                    &&& self@.contains_key(shard@)
                    &&& page_v(page.entries@) == stretch(l, shard@, start, end)
                    &&& opt_position(page.next) == (if end < l.entries.len() {
                        Some(position_at(l, shard@, end as int))
                    } else {
                        None
                    })
                },
                Err(e) => !self@.contains_key(shard@) && e@ == ErrorV::NotFound,
            },
    {
        match self.log_of(shard) {
            Ok(l) => Ok(l.read_from(shard, from, limit)),
            Err(e) => Err(e),
        }
    }

    /// The position up to which a queue's commands are durable.
    pub fn high_water(&self, shard: &QueueKey) -> (r: EngineResult<Option<CommandPosition>>)
        ensures
            r matches Ok(p) && opt_position(p) == (if self@.contains_key(shard@) {
                self@[shard@].high_water
            } else {
                None
            }),
    {
        match self.logs.get(shard) {
            Some(l) => Ok(l.high_water()),
            None => Ok(None),
        }
    }

    /// Sets a queue's mark. It never goes back.
    pub fn set_high_water(&mut self, shard: &QueueKey, position: CommandPosition) -> (r:
        EngineResult<()>)
        ensures
            match r {
                Ok(_) => {
                    &&& old(self)@.contains_key(shard@)
                    &&& mark_allowed(old(self)@[shard@].high_water, position@)
                    &&& final(self)@ == old(self)@.insert(
                        shard@,
                        marked(old(self)@[shard@], position@),
                    )
                },
                Err(e) => {
                    &&& e@ == (if old(self)@.contains_key(shard@) {
                        ErrorV::Invalid("high-water regression"@)
                    } else {
                        ErrorV::NotFound
                    })
                    &&& (old(self)@.contains_key(shard@) ==> !mark_allowed(
                        old(self)@[shard@].high_water,
                        position@,
                    ))
                    &&& final(self)@ == old(self)@
                },
            },
    {
        match self.logs.take(shard) {
            None => {
                assert(self@ =~= old(self)@);
                Err(EngineError::NotFound)
            },
            Some(mut log) => {
                assert(old(self)@[shard@] == log@);
                let r = log.set_high_water(position);
                self.logs.insert(shard.duplicate(), log);
                assert(self@ =~= old(self)@.insert(shard@, log@));
                assert(r is Err ==> self@ =~= old(self)@);
                r
            },
        }
    }

    /// Keeps a snapshot of a queue.
    pub fn write_snapshot(
        &mut self,
        shard: &QueueKey,
        position: CommandPosition,
        snapshot: ProjectionSnapshot,
    ) -> (r: EngineResult<SnapshotRef>)
        ensures
            match r {
                Ok(s) => {
                    let l = old(self)@[shard@];
                    &&& old(self)@.contains_key(shard@)
                    &&& s@ == (SnapshotV {
                        queue: shard@,
                        position: position@,
                        ref_id: "snap-"@ + numeral(l.snapshots.len()),
                    })
                    &&& final(self)@ == old(self)@.insert(
                        shard@,
                        LogV { snapshots: l.snapshots.push((s@, snapshot.payload@)), ..l },
                    )
                },
                Err(e) => {
                    &&& !old(self)@.contains_key(shard@)
                    &&& e@ == ErrorV::NotFound
                    &&& final(self)@ == old(self)@
                },
            },
    {
        match self.logs.take(shard) {
            None => {
                assert(self@ =~= old(self)@);
                Err(EngineError::NotFound)
            },
            Some(mut log) => {
                assert(old(self)@[shard@] == log@);
                let s = log.write_snapshot(shard, position, snapshot);
                self.logs.insert(shard.duplicate(), log);
                assert(self@ =~= old(self)@.insert(shard@, log@));
                Ok(s)
            },
        }
    }

    pub fn latest_snapshot(&self, shard: &QueueKey) -> (r: EngineResult<Option<SnapshotRef>>)
        ensures
            r matches Ok(s) && opt_snapshot(s) == (if self@.contains_key(shard@)
                && self@[shard@].snapshots.len() > 0 {
                Some(self@[shard@].snapshots.last().0)
            } else {
                None
            }),
    {
        match self.logs.get(shard) {
            Some(l) => Ok(l.latest_snapshot()),
            None => Ok(None),
        }
    }

    /// The snapshot under a reference.
    pub fn read_snapshot(&self, snapshot_ref: &SnapshotRef) -> (r: EngineResult<ProjectionSnapshot>)
        ensures
            ({
                let q = snapshot_ref@.queue;
                let found = if self@.contains_key(q) {
                    named_snapshot(self@[q].snapshots, snapshot_ref@.ref_id)
                } else {
                    None
                };
                match r {
                    Ok(s) => found == Some(s.payload@),
                    Err(e) => found is None && e@ == ErrorV::NotFound,
                }
            }),
    {
        match self.log_of(&snapshot_ref.queue) {
            Ok(l) => l.read_snapshot(snapshot_ref),
            Err(e) => Err(e),
        }
    }

    pub fn snapshot_at_or_before(&self, shard: &QueueKey, position: &CommandPosition) -> (r:
        EngineResult<Option<SnapshotRef>>)
        ensures
            r matches Ok(s) && opt_snapshot(s) == (if self@.contains_key(shard@) {
                last_covering(self@[shard@].snapshots, position@)
            } else {
                None
            }),
    {
        match self.logs.get(shard) {
            Some(l) => Ok(l.snapshot_at_or_before(position)),
            None => Ok(None),
        }
    }
}

/// The projections of many queues.
pub struct InMemoryProjection {
    pub projections: OrdMap<QueueKey, ProjectionData>,
}

pub open spec fn models_of(p: Map<QueueV, ProjectionData>) -> Map<QueueV, Model> {
    p.map_values(|d: ProjectionData| d@)
}

/// What a store of projections can be asked.
#[derive(Clone, Copy, PartialEq, Eq, Structural, Debug)]
pub struct QueryCapabilityFlags {
    pub range_scan: bool,
    pub grouped_aggregate: bool,
    pub declared_bucket_segment: bool,
    pub bounded_mutation: bool,
    pub claim_by_query: bool,
    pub side_record_query: bool,
    pub claim_by_item_ids: bool,
}

/// Commands, each at its position, applied to the queues they belong to. The first failure ends it;
/// what was done before stays.
pub open spec fn replayed(
    ms: Map<QueueV, Model>,
    positions: Seq<PositionV>,
    commands: Seq<CommandEnvelope>,
) -> (Map<QueueV, Model>, Result<(), ErrorV>)
    decreases commands.len(),
{
    if positions.len() == 0 || commands.len() == 0 {
        (ms, Ok(()))
    } else {
        let q = positions[0].queue;
        if !ms.contains_key(q) {
            (ms, Err(ErrorV::NotFound))
        } else {
            let step = applied(
                ms[q],
                Some(commands[0].created_at),
                Some(positions[0]),
                commands[0].command,
            );
            match step.1 {
                Err(e) => (ms.insert(q, step.0), Err(e)),
                Ok(_) => replayed(
                    ms.insert(q, step.0),
                    positions.drop_first(),
                    commands.drop_first(),
                ),
            }
        }
    }
}

/// The counts have room for each command in turn.
pub open spec fn replay_fits(
    ms: Map<QueueV, Model>,
    positions: Seq<PositionV>,
    commands: Seq<CommandEnvelope>,
) -> bool
    decreases commands.len(),
{
    if positions.len() == 0 || commands.len() == 0 || !ms.contains_key(positions[0].queue) {
        true
    } else {
        let q = positions[0].queue;
        let step = applied(
            ms[q],
            Some(commands[0].created_at),
            Some(positions[0]),
            commands[0].command,
        );
        &&& fits(ms[q], commands[0].command)
        &&& (step.1 is Ok ==> replay_fits(
            ms.insert(q, step.0),
            positions.drop_first(),
            commands.drop_first(),
        ))
    }
}

/// Commands, each at its position, applied to one queue.
pub open spec fn recovered(
    m: Model,
    positions: Seq<PositionV>,
    commands: Seq<CommandEnvelope>,
) -> (Model, Result<(), ErrorV>)
    decreases commands.len(),
{
    if positions.len() == 0 || commands.len() == 0 {
        (m, Ok(()))
    } else {
        let step = applied(
            m,
            Some(commands[0].created_at),
            Some(positions[0]),
            commands[0].command,
        );
        match step.1 {
            Err(e) => (step.0, Err(e)),
            Ok(_) => recovered(step.0, positions.drop_first(), commands.drop_first()),
        }
    }
}

/// The counts have room for each command of a recovery in turn.
pub open spec fn recovery_fits(
    m: Model,
    positions: Seq<PositionV>,
    commands: Seq<CommandEnvelope>,
) -> bool
    decreases commands.len(),
{
    if positions.len() == 0 || commands.len() == 0 {
        true
    } else {
        let step = applied(
            m,
            Some(commands[0].created_at),
            Some(positions[0]),
            commands[0].command,
        );
        &&& fits(m, commands[0].command)
        &&& (step.1 is Ok ==> recovery_fits(
            step.0,
            positions.drop_first(),
            commands.drop_first(),
        ))
    }
}

/// Counts as a text.
pub open spec fn metrics_text(m: QueueMetrics) -> Seq<char> {
    "QueueMetrics { pending: "@ + numeral(m.pending as nat) + ", leased: "@ + numeral(
        m.leased as nat,
    ) + ", complete: "@ + numeral(m.complete as nat) + ", failed: "@ + numeral(m.failed as nat)
        + ", resident_terminal_count: "@ + numeral(m.resident_terminal_count as nat) + " }"@
}

fn push_metrics(out: &mut String, m: &QueueMetrics)
    ensures
        final(out)@ == old(out)@ + metrics_text(*m),
{
    out.append("QueueMetrics { pending: ");
    push_u64(out, m.pending);
    out.append(", leased: ");
    push_u64(out, m.leased);
    out.append(", complete: ");
    push_u64(out, m.complete);
    out.append(", failed: ");
    push_u64(out, m.failed);
    out.append(", resident_terminal_count: ");
    push_u64(out, m.resident_terminal_count);
    out.append(" }");
    assert(out@ =~= old(out)@ + metrics_text(*m));
}

/// The error for an image whose counts are not those of its items.
pub open spec fn mismatch_text(image: QueueMetrics, found: QueueMetrics) -> Seq<char> {
    "projection hydration metrics mismatch: image "@ + metrics_text(image) + ", rebuilt "@
        + metrics_text(found)
}

/// A queue that is rebuilt from an image, in place of what was there. Nothing changes on failure.
pub open spec fn hydrated(
    ms: Map<QueueV, Model>,
    q: QueueV,
    definition: QueueDefinition,
    image: ProjectionImage,
) -> (Map<QueueV, Model>, Result<(), ErrorV>) {
    let step = rebuilt(definition, image);
    match step.1 {
        Err(e) => (ms, Err(e)),
        Ok(_) => if step.0.metrics != image.metrics {
            (ms, Err(ErrorV::Storage(mismatch_text(image.metrics, step.0.metrics))))
        } else {
            (ms.insert(q, step.0), Ok(()))
        },
    }
}

fn defined_projection(definition: &QueueDefinition) -> (r: ProjectionData)
    ensures
        r@ == defined(*definition),
{
    ProjectionData::new(
        definition.priority_model,
        definition.ordering_mode,
        definition.max_rank_error,
        definition.recurrence,
        &definition.secondary_indexes,
    ).with_typed_indexes(&definition.typed_indexes).with_eligibility_policy(
        definition.eligibility_policy,
    )
}

impl InMemoryProjection {
    pub open spec fn view(&self) -> Map<QueueV, Model> {
        models_of(self.projections@)
    }

    pub fn new() -> (r: InMemoryProjection)
        ensures
            r@ == Map::<QueueV, Model>::empty(),
    {
        let r = InMemoryProjection { projections: OrdMap::new() };
        assert(r@ =~= Map::<QueueV, Model>::empty());
        r
    }

    /// The projection of a queue.
    pub fn get(&self, shard: &QueueKey) -> (r: EngineResult<&ProjectionData>)
        ensures
            match r {
                Ok(p) => self@.contains_key(shard@) && self@[shard@] == p@,
                Err(e) => !self@.contains_key(shard@) && e@ == ErrorV::NotFound,
            },
    {
        match self.projections.get(shard) {
            Some(p) => Ok(p),
            None => Err(EngineError::NotFound),
        }
    }

    /// The definitions that are kept with the projections: memory keeps none.
    pub fn recover_definitions(&self) -> (r: EngineResult<Vec<QueueDefinition>>)
        ensures
            r is Ok,
            r->Ok_0@ == Seq::<QueueDefinition>::empty(),
    {
        Ok(Vec::new())
    }

    pub fn supports_gates(&self) -> (r: bool)
        ensures
            r,
    {
        true
    }

    pub fn supports_commit_transition(&self) -> (r: bool)
        ensures
            r,
    {
        true
    }

    pub fn hot_projection_capabilities(&self) -> (r: QueryCapabilityFlags)
        ensures
            r == (QueryCapabilityFlags {
                range_scan: true,
                grouped_aggregate: true,
                declared_bucket_segment: true,
                bounded_mutation: true,
                claim_by_query: true,
                side_record_query: false,
                claim_by_item_ids: true,
            }),
    {
        QueryCapabilityFlags {
            range_scan: true,
            grouped_aggregate: true,
            declared_bucket_segment: true,
            bounded_mutation: true,
            claim_by_query: true,
            side_record_query: false,
            claim_by_item_ids: true,
        }
    }

    /// A page of a queue's pending items.
    pub fn peek_page(&self, shard: &QueueKey, after: Option<ItemId>, limit: usize) -> (r:
        EngineResult<Vec<ItemView>>)
        ensures
            match r {
                Ok(v) => self@.contains_key(shard@) && item_views_v(v@) == page_peeked(
                    self@[shard@],
                    after,
                    limit as nat,
                ),
                Err(e) => !self@.contains_key(shard@) && e@ == ErrorV::NotFound,
            },
    {
        match self.get(shard) {
            Ok(p) => Ok(p.peek_page(after, limit)),
            Err(e) => Err(e),
        }
    }

    /// Begins a queue where there is none.
    pub fn ensure_shard(&mut self, shard: &QueueKey, definition: &QueueDefinition) -> (r:
        EngineResult<()>)
        ensures
            r is Ok,
            final(self)@ == (if old(self)@.contains_key(shard@) {
                old(self)@
            } else {
                old(self)@.insert(shard@, defined(*definition))
            }),
    {
        if !self.projections.contains_key(shard) {
            self.projections.insert(shard.duplicate(), defined_projection(definition));
            assert(self@ =~= old(self)@.insert(shard@, defined(*definition)));
        }
        Ok(())
    }

    /// Puts a queue rebuilt from an image in place of what was there. An image whose counts do not
    /// agree with its items is refused.
    pub fn hydrate_shard(
        &mut self,
        shard: &QueueKey,
        definition: &QueueDefinition,
        image: &ProjectionImage,
    ) -> (r: EngineResult<()>)
        ensures
            (final(self)@, outcome(r)) == hydrated(old(self)@, shard@, *definition, *image),
    {
        let p = match ProjectionData::from_image(definition, image) {
            Ok(p) => p,
            Err(e) => return Err(e),
        };
        let found = p.metrics();
        if found != image.metrics {
            let mut text = "projection hydration metrics mismatch: image ".to_owned();
            push_metrics(&mut text, &image.metrics);
            text.append(", rebuilt ");
            push_metrics(&mut text, &found);
            assert(text@ =~= mismatch_text(image.metrics, found));
            return Err(EngineError::Storage(text));
        }
        self.projections.insert(shard.duplicate(), p);
        assert(self@ =~= old(self)@.insert(shard@, p@));
        Ok(())
    }

    /// Applies commands, each at its position. Positions without a command, and commands without a
    /// position, are passed over.
    pub fn apply_borrowed(
        &mut self,
        positions: &Vec<CommandPosition>,
        commands: &Vec<CommandEnvelope>,
    ) -> (r: EngineResult<()>)
        requires
            replay_fits(old(self)@, positions_v(positions@), commands@),
        ensures
            (final(self)@, outcome(r)) == replayed(
                old(self)@,
                positions_v(positions@),
                commands@,
            ),
    {
        let ghost ps = positions_v(positions@);
        let ghost cs = commands@;
        let ghost whole = replayed(self@, ps, cs);
        let mut i: usize = 0;
        assert(ps.skip(0) =~= ps);
        assert(cs.skip(0) =~= cs);
        while i < positions.len() && i < commands.len()
            invariant
                i <= positions@.len(),
                i <= commands@.len(),
                ps == positions_v(positions@),
                cs == commands@,
                whole == replayed(old(self)@, ps, cs),
                whole == replayed(self@, ps.skip(i as int), cs.skip(i as int)),
                replay_fits(self@, ps.skip(i as int), cs.skip(i as int)),
            decreases positions@.len() - i,
        {
            let pos = &positions[i];
            let cmd = &commands[i];
            let ghost before = self@;
            proof {
                assert(ps.skip(i as int)[0] == pos@);
                assert(cs.skip(i as int)[0] == *cmd);
                assert(ps.skip(i as int).drop_first() =~= ps.skip(i as int + 1));
                assert(cs.skip(i as int).drop_first() =~= cs.skip(i as int + 1));
            }
            match self.projections.take(&pos.queue) {
                None => {
                    assert(self@ =~= before);
                    return Err(EngineError::NotFound);
                },
                Some(mut p) => {
                    assert(before[pos@.queue] == p@);
                    let r = p.apply_command_at(Some(cmd.created_at), Some(pos), &cmd.command);
                    self.projections.insert(pos.queue.duplicate(), p);
                    assert(self@ =~= before.insert(pos@.queue, p@));
                    match r {
                        Ok(_) => {},
                        Err(e) => return Err(e),
                    }
                },
            }
            i = i + 1;
        }
        Ok(())
    }

    /// Applies commands, one for each position.
    pub fn apply_live_owned(
        &mut self,
        positions: Vec<CommandPosition>,
        commands: Vec<CommandEnvelope>,
    ) -> (r: EngineResult<()>)
        requires
            positions@.len() == commands@.len() ==> replay_fits(
                old(self)@,
                positions_v(positions@),
                commands@,
            ),
        ensures
            (final(self)@, outcome(r)) == (if positions@.len() != commands@.len() {
                (
                    old(self)@,
                    Err(
                        ErrorV::Storage(
                            "apply_live_owned: positions/commands length mismatch"@,
                        ),
                    ),
                )
            } else {
                replayed(old(self)@, positions_v(positions@), commands@)
            }),
    {
        if positions.len() != commands.len() {
            return Err(
                EngineError::Storage(
                    "apply_live_owned: positions/commands length mismatch".to_owned(),
                ),
            );
        }
        self.apply_borrowed(&positions, &commands)
    }

    /// Puts a queue that follows from its commands in place of what was there. Nothing changes on
    /// failure.
    pub fn install_recovery_shard(
        &mut self,
        shard: &QueueKey,
        definition: &QueueDefinition,
        positions: &Vec<CommandPosition>,
        commands: &Vec<CommandEnvelope>,
    ) -> (r: EngineResult<()>)
        requires
            positions@.len() == commands@.len() ==> recovery_fits(
                defined(*definition),
                positions_v(positions@),
                commands@,
            ),
        ensures
            (final(self)@, outcome(r)) == (if positions@.len() != commands@.len() {
                (
                    old(self)@,
                    Err(
                        ErrorV::Storage(
                            "recovery install positions/commands length mismatch"@,
                        ),
                    ),
                )
            } else {
                let step = recovered(defined(*definition), positions_v(positions@), commands@);
                match step.1 {
                    Err(e) => (old(self)@, Err(e)),
                    Ok(_) => (old(self)@.insert(shard@, step.0), Ok(())),
                }
            }),
    {
        if positions.len() != commands.len() {
            return Err(
                EngineError::Storage(
                    "recovery install positions/commands length mismatch".to_owned(),
                ),
            );
        }
        let ghost ps = positions_v(positions@);
        let ghost cs = commands@;
        let ghost whole = recovered(defined(*definition), ps, cs);
        let mut replacement = defined_projection(definition);
        let mut i: usize = 0;
        assert(ps.skip(0) =~= ps);
        assert(cs.skip(0) =~= cs);
        while i < positions.len()
            invariant
                i <= positions@.len(),
                positions@.len() == commands@.len(),
                ps == positions_v(positions@),
                cs == commands@,
                whole == recovered(defined(*definition), ps, cs),
                whole == recovered(replacement@, ps.skip(i as int), cs.skip(i as int)),
                recovery_fits(replacement@, ps.skip(i as int), cs.skip(i as int)),
                self@ == old(self)@,
            decreases positions@.len() - i,
        {
            let pos = &positions[i];
            let cmd = &commands[i];
            proof {
                assert(ps.skip(i as int)[0] == pos@);
                assert(cs.skip(i as int)[0] == *cmd);
                assert(ps.skip(i as int).drop_first() =~= ps.skip(i as int + 1));
                assert(cs.skip(i as int).drop_first() =~= cs.skip(i as int + 1));
            }
            match replacement.apply_command_at(Some(cmd.created_at), Some(pos), &cmd.command) {
                Ok(_) => {},
                Err(e) => return Err(e),
            }
            i = i + 1;
        }
        self.projections.insert(shard.duplicate(), replacement);
        assert(self@ =~= old(self)@.insert(shard@, replacement@));
        Ok(())
    }

    /// Selects single items of a queue to claim.
    pub fn select_item_claim(
        &self,
        shard: &QueueKey,
        compatibility: &ClaimCompatibility,
        now: UtcTimestamp,
        max: usize,
    ) -> (r: EngineResult<Vec<ItemId>>)
        ensures
            ids_outcome(r) == (if max == 0 {
                Ok(Seq::empty())
            } else if self@.contains_key(shard@) {
                Ok(item_claim(self@[shard@], compatibility@, now, max as nat))
            } else {
                Err(ErrorV::NotFound)
            }),
    {
        if max == 0 {
            return Ok(Vec::new());
        }
        match self.get(shard) {
            Ok(p) => Ok(p.select_item_claim(compatibility, now, max)),
            Err(e) => Err(e),
        }
    }

    /// Selects what a claim of more than single items takes of a queue.
    pub fn select_rich_claim(
        &self,
        shard: &QueueKey,
        unit: ClaimUnit,
        compatibility: &ClaimCompatibility,
        now: UtcTimestamp,
        max_items: usize,
    ) -> (r: EngineResult<RichClaimSelection>)
        ensures
            selection_outcome(r) == (if self@.contains_key(shard@) {
                rich_claim(self@[shard@], unit, compatibility@, now, max_items as nat)
            } else {
                Err(ErrorV::NotFound)
            }),
    {
        match self.get(shard) {
            Ok(p) => p.select_rich_claim(unit, compatibility, now, max_items),
            Err(e) => Err(e),
        }
    }

    /// A store with one queue as it was: as defined, or as a snapshot's image holds it.
    pub fn reconstruct_as_of(
        shard: &QueueKey,
        definition: &QueueDefinition,
        image: Option<&ProjectionImage>,
    ) -> (r: EngineResult<InMemoryProjection>)
        ensures
            ({
                let fresh_one = Map::<QueueV, Model>::empty().insert(
                    shard@,
                    defined(*definition),
                );
                match image {
                    None => r matches Ok(p) && p@ == fresh_one,
                    Some(i) => match r {
                        Ok(p) => hydrated(fresh_one, shard@, *definition, *i) == (
                            p@,
                            Ok::<(), ErrorV>(()),
                        ),
                        Err(e) => hydrated(fresh_one, shard@, *definition, *i) == (
                            fresh_one,
                            Err::<(), ErrorV>(e@),
                        ),
                    },
                }
            }),
    {
        let mut p = InMemoryProjection::new();
        match p.ensure_shard(shard, definition) {
            Ok(_) => {},
            Err(e) => return Err(e),
        }
        match image {
            None => Ok(p),
            Some(i) => match p.hydrate_shard(shard, definition, i) {
                Ok(_) => Ok(p),
                Err(e) => Err(e),
            },
        }
    }
}

/// Commands of one queue come out the same whether they are applied where the queue is served or
/// replayed aside and installed.
pub proof fn law_recovery_is_replay(
    ms: Map<QueueV, Model>,
    q: QueueV,
    positions: Seq<PositionV>,
    commands: Seq<CommandEnvelope>,
)
    requires
        ms.contains_key(q),
        forall|i: int| 0 <= i < positions.len() ==> (#[trigger] positions[i]).queue == q,
    ensures
        replayed(ms, positions, commands) == (
            ms.insert(q, recovered(ms[q], positions, commands).0),
            recovered(ms[q], positions, commands).1,
        ),
    decreases commands.len(),
{
    if positions.len() == 0 || commands.len() == 0 {
        assert(ms.insert(q, ms[q]) =~= ms);
    } else {
        let step = applied(
            ms[q],
            Some(commands[0].created_at),
            Some(positions[0]),
            commands[0].command,
        );
        if step.1 is Ok {
            let ms1 = ms.insert(q, step.0);
            law_recovery_is_replay(ms1, q, positions.drop_first(), commands.drop_first());
            let out = recovered(step.0, positions.drop_first(), commands.drop_first());
            assert(ms1.insert(q, out.0) =~= ms.insert(q, out.0));
        }
    }
}

/// Commands change no queue but those of their positions.
pub proof fn law_replay_keeps_other_queues(
    ms: Map<QueueV, Model>,
    q: QueueV,
    positions: Seq<PositionV>,
    commands: Seq<CommandEnvelope>,
)
    requires
        forall|i: int| 0 <= i < positions.len() ==> (#[trigger] positions[i]).queue != q,
    ensures
        replayed(ms, positions, commands).0.contains_key(q) == ms.contains_key(q),
        ms.contains_key(q) ==> replayed(ms, positions, commands).0[q] == ms[q],
    decreases commands.len(),
{
    if positions.len() > 0 && commands.len() > 0 && ms.contains_key(positions[0].queue) {
        let step = applied(
            ms[positions[0].queue],
            Some(commands[0].created_at),
            Some(positions[0]),
            commands[0].command,
        );
        assert(positions[0].queue != q);
        law_replay_keeps_other_queues(
            ms.insert(positions[0].queue, step.0),
            q,
            positions.drop_first(),
            commands.drop_first(),
        );
    }
}

} // verus!
