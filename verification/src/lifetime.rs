//! A queue from its definition on: what holds of whatever its commands have made of it.

use crate::checked::{law_documents_stay_readable, readable};
use crate::consistency::{consistent, counts_exact, keyed, law_valid_commands_keep_consistency, placed, run_valid, valid};
use crate::eligibility::{elig_lt, first_of, key_of};
use crate::history::{claimable, creations, in_line, law_first_in_line_are_offered, law_line_is_ordered, law_names_and_numbers_stand, near, numbered};
use crate::image::{ProjectionImage, defined, image_items_v, image_list, keys_proper, law_image_round_trip, lemma_empty_is_consistent, rebuilt};
use crate::model::{Model, Step, applied, run};
use crate::places::{law_places_follow_every_command, orderly};
use crate::projection::side_v;
use crate::reads::{candidates, rank_bound};
use crate::types::{ItemId, PositionV, QueueCommand, QueueDefinition, UtcTimestamp};
use vstd::prelude::*;

verus! {

/// A command with the time and the place that it is applied under.
pub struct Entry {
    pub at: Option<UtcTimestamp>,
    pub pos: Option<PositionV>,
    pub cmd: QueueCommand,
}

/// One command of a queue's life.
pub open spec fn apply_each() -> spec_fn(Model, Entry) -> Step {
    |m: Model, e: Entry| applied(m, e.at, e.pos, e.cmd)
}

/// The command was checked against the queue as it stands.
pub open spec fn entry_valid() -> spec_fn(Model, Entry) -> bool {
    |m: Model, e: Entry| valid(m, e.at, e.pos, e.cmd)
}

/// The command pushes no item that is there already, and updates none that was replaced.
pub open spec fn entry_orderly() -> spec_fn(Model, Entry) -> bool {
    |m: Model, e: Entry| orderly(m, e.at, e.cmd)
}

/// What a queue of the definition has become after the commands.
pub open spec fn lived(d: QueueDefinition, log: Seq<Entry>) -> Step {
    run(defined(d), log, apply_each())
}

/// Each command was checked when its turn came.
pub open spec fn all_checked(d: QueueDefinition, log: Seq<Entry>) -> bool {
    run_valid(defined(d), log, apply_each(), entry_valid())
}

/// No command pushed an item that was there already when its turn came, or updated one that had been
/// replaced.
pub open spec fn all_orderly(d: QueueDefinition, log: Seq<Entry>) -> bool {
    run_valid(defined(d), log, apply_each(), entry_orderly())
}

/// How often the commands move the creation counter.
pub open spec fn all_creations(log: Seq<Entry>) -> nat
    decreases log.len(),
{
    if log.len() == 0 {
        0
    } else {
        creations(log[0].cmd) + all_creations(log.drop_first())
    }
}

proof fn lemma_life_consistent(m: Model, log: Seq<Entry>)
    requires
        consistent(m),
        run(m, log, apply_each()).1 is Ok,
        run_valid(m, log, apply_each(), entry_valid()),
    ensures
        consistent(run(m, log, apply_each()).0),
    decreases log.len(),
{
    if log.len() > 0 {
        let e = log[0];
        law_valid_commands_keep_consistency(m, e.at, e.pos, e.cmd);
        lemma_life_consistent(applied(m, e.at, e.pos, e.cmd).0, log.drop_first());
    }
}

/// A queue that was made from a definition agrees with its items after any number of commands that were
/// each checked and applied.
pub proof fn law_queues_stay_consistent(d: QueueDefinition, log: Seq<Entry>)
    requires
        lived(d, log).1 is Ok,
        all_checked(d, log),
    ensures
        consistent(lived(d, log).0),
{
    lemma_empty_is_consistent(defined(d));
    lemma_life_consistent(defined(d), log);
}

proof fn lemma_life_places(m: Model, log: Seq<Entry>)
    requires
        placed(m),
        run(m, log, apply_each()).1 is Ok,
        run_valid(m, log, apply_each(), entry_orderly()),
    ensures
        placed(run(m, log, apply_each()).0),
    decreases log.len(),
{
    if log.len() > 0 {
        let e = log[0];
        law_places_follow_every_command(m, e.at, e.pos, e.cmd);
        lemma_life_places(applied(m, e.at, e.pos, e.cmd).0, log.drop_first());
    }
}

/// Whatever commands have made of a queue, it offers, unless it is paused, the first of its items that
/// may be claimed, each once and each at most the allowed rank error away from its place in the strict
/// order. In line are just the items that may be claimed, each once: priced before unpriced, a lower rank
/// before a higher, and under one rank the one that was created first. It is so as long as no item is
/// pushed that is there already, and none updated that was replaced.
pub proof fn law_queues_offer_the_first_in_line(
    d: QueueDefinition,
    log: Seq<Entry>,
    now: UtcTimestamp,
    max: nat,
)
    requires
        lived(d, log).1 is Ok,
        all_orderly(d, log),
    ensures
        ({
            let m = lived(d, log).0;
            let line = in_line(m, now);
            let c = candidates(m, now, max);
            &&& m.paused ==> c == Seq::<ItemId>::empty()
            &&& !m.paused ==> {
                &&& c.len() == first_of(line, max).len()
                &&& c.no_duplicates()
                &&& c.to_set() == first_of(line, max).to_set()
                &&& rank_bound(m) == 0 ==> c == first_of(line, max)
                &&& forall|i: int| 0 <= i < c.len() ==> #[trigger] near(line, c, i, rank_bound(m))
            }
            &&& line.no_duplicates()
            &&& forall|id: ItemId| #[trigger] line.contains(id) <==> claimable(m, id, now)
            &&& forall|i: int, j: int|
                0 <= i < j < line.len() ==> elig_lt(
                    key_of(m.items[#[trigger] line[i]], m.priority_model),
                    key_of(m.items[#[trigger] line[j]], m.priority_model),
                )
        }),
{
    lemma_empty_is_consistent(defined(d));
    lemma_life_places(defined(d), log);
    law_first_in_line_are_offered(lived(d, log).0, now, max);
    law_line_is_ordered(lived(d, log).0, now);
}

proof fn lemma_life_names(m: Model, log: Seq<Entry>)
    requires
        keyed(m),
        readable(m),
        numbered(m),
        keys_proper(m),
        m.next_seq + all_creations(log) <= u64::MAX,
    ensures
        ({
            let n = run(m, log, apply_each()).0;
            &&& keyed(n)
            &&& readable(n)
            &&& numbered(n)
            &&& keys_proper(n)
        }),
    decreases log.len(),
{
    if log.len() > 0 {
        let e = log[0];
        law_names_and_numbers_stand(m, e.at, e.pos, e.cmd);
        law_documents_stay_readable(m, e.at, e.pos, e.cmd);
        lemma_life_names(applied(m, e.at, e.pos, e.cmd).0, log.drop_first());
    }
}

/// Whatever commands have made of a queue, its image gives it back, as long as its counts are those of
/// its items and its creation counter has not run out: the rebuilding succeeds, and the queue that comes
/// of it holds the same items, counts them the same, goes on from the same number, is paused as it was,
/// has the same blocked gates, side records and fences, agrees with its items, and has the same image.
pub proof fn law_queues_come_back_from_their_images(
    d: QueueDefinition,
    log: Seq<Entry>,
    image: ProjectionImage,
)
    requires
        lived(d, log).1 is Ok,
        counts_exact(lived(d, log).0),
        all_creations(log) <= u64::MAX,
        ({
            let m = lived(d, log).0;
            &&& image_items_v(image.items@) == image_list(m)
            &&& image.next_seq == m.next_seq
            &&& image.paused == m.paused
            &&& image.pause_drain_intake == m.pause_drain_intake
            &&& image.blocked_gates@ == m.blocked_gates
            &&& side_v(image.side_records@) == m.side_records
            &&& image.instance_fences@ == m.instance_fences
        }),
    ensures
        rebuilt(d, image).1 is Ok,
        ({
            let m = lived(d, log).0;
            let n = rebuilt(d, image).0;
            &&& n.items == m.items
            &&& image_list(n) == image_list(m)
            &&& n.metrics == m.metrics
            &&& n.next_seq == m.next_seq
            &&& n.paused == m.paused
            &&& n.pause_drain_intake == m.pause_drain_intake
            &&& n.blocked_gates == m.blocked_gates
            &&& n.side_records == m.side_records
            &&& n.instance_fences == m.instance_fences
            &&& consistent(n)
        }),
{
    lemma_life_names(defined(d), log);
    law_image_round_trip(lived(d, log).0, d, image);
}

} // verus!
