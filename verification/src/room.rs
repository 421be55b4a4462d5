//! Whether the counters of a queue have room for a command.

use crate::model::{Model, counts_room, fits, live_group, room, settled_ids, updated_ids};
use crate::projection::ProjectionData;
use crate::types::{FinalizeOutcome, ItemId, QueueCommand, UpdateFieldsCommand};
use vstd::prelude::*;

verus! {

/// The counters of an item, if there is one, can go up `n` more times.
pub open spec fn item_room(m: Model, id: ItemId, n: nat) -> bool {
    m.items.contains_key(id) ==> m.items[id].item_version + n <= u64::MAX
        && m.items[id].attempt_count + n <= u32::MAX
}

proof fn lemma_room_for_all(m: Model, ids: Seq<ItemId>, n: nat)
    ensures
        room(m, ids.to_set(), n) <==> counts_room(m, n) && forall|k: int|
            0 <= k < ids.len() ==> item_room(m, #[trigger] ids[k], n),
{
    if room(m, ids.to_set(), n) {
        assert forall|k: int| 0 <= k < ids.len() implies item_room(m, #[trigger] ids[k], n) by {
            assert(ids.to_set().contains(ids[k]));
        }
    }
    if forall|k: int| 0 <= k < ids.len() ==> item_room(m, #[trigger] ids[k], n) {
        assert forall|id: ItemId| #[trigger]
            m.items.contains_key(id) && ids.to_set().contains(id) implies m.items[id].item_version + n
            <= u64::MAX && m.items[id].attempt_count + n <= u32::MAX by {
            let k = choose|k: int| 0 <= k < ids.len() && ids[k] == id;
            assert(item_room(m, ids[k], n));
        }
    }
}

fn ids_updated(cs: &Vec<UpdateFieldsCommand>) -> (r: Vec<ItemId>)
    ensures
        r@ == updated_ids(cs@),
{
    let mut out: Vec<ItemId> = Vec::new();
    let mut i: usize = 0;
    while i < cs.len()
        invariant
            i <= cs@.len(),
            out@ == updated_ids(cs@).take(i as int),
        decreases cs@.len() - i,
    {
        out.push(cs[i].item_id);
        assert(updated_ids(cs@).take(i as int + 1) =~= updated_ids(cs@).take(i as int).push(
            cs@[i as int].item_id,
        ));
        i = i + 1;
    }
    assert(updated_ids(cs@).take(i as int) =~= updated_ids(cs@));
    out
}

fn ids_settled(os: &Vec<FinalizeOutcome>) -> (r: Vec<ItemId>)
    ensures
        r@ == settled_ids(os@),
{
    let mut out: Vec<ItemId> = Vec::new();
    let mut i: usize = 0;
    while i < os.len()
        invariant
            i <= os@.len(),
            out@ == settled_ids(os@).take(i as int),
        decreases os@.len() - i,
    {
        out.push(os[i].item_id);
        assert(settled_ids(os@).take(i as int + 1) =~= settled_ids(os@).take(i as int).push(
            os@[i as int].item_id,
        ));
        i = i + 1;
    }
    assert(settled_ids(os@).take(i as int) =~= settled_ids(os@));
    out
}

impl ProjectionData {
    fn counts_have_room(&self, n: usize) -> (r: bool)
        ensures
            r == counts_room(self@, n as nat),
    {
        let most = u64::MAX - (n as u64);
        let c = self.metrics();
        c.pending <= most && c.leased <= most && c.complete <= most && c.failed <= most
            && c.resident_terminal_count <= most && self.next_seq <= most
    }

    fn item_has_room(&self, id: ItemId, n: usize) -> (r: bool)
        ensures
            r == item_room(self@, id, n as nat),
    {
        match self.record(id) {
            None => true,
            Some(rec) => rec.item_version <= u64::MAX - (n as u64) && (rec.attempt_count as u128)
                + (n as u128) <= u32::MAX as u128,
        }
    }

    fn items_have_room(&self, ids: &Vec<ItemId>, n: usize) -> (r: bool)
        ensures
            r == room(self@, ids@.to_set(), n as nat),
    {
        proof {
            lemma_room_for_all(self@, ids@, n as nat);
        }
        if !self.counts_have_room(n) {
            return false;
        }
        let mut i: usize = 0;
        while i < ids.len()
            invariant
                i <= ids@.len(),
                counts_room(self@, n as nat),
                forall|k: int| 0 <= k < i ==> item_room(self@, #[trigger] ids@[k], n as nat),
                room(self@, ids@.to_set(), n as nat) <==> counts_room(self@, n as nat)
                    && forall|k: int|
                    0 <= k < ids@.len() ==> item_room(self@, #[trigger] ids@[k], n as nat),
            decreases ids@.len() - i,
        {
            if !self.item_has_room(ids[i], n) {
                assert(!item_room(self@, ids@[i as int], n as nat));
                return false;
            }
            i = i + 1;
        }
        true
    }

    fn group_has_room(&self, group: &String) -> (r: bool)
        ensures
            r == room(
                self@,
                live_group(self@, group@),
                live_group(self@, group@).len(),
            ),
    {
        let members = self.group_ids(group.as_str());
        let n = members.len();
        let mut ids: Vec<ItemId> = Vec::new();
        let mut i: usize = 0;
        while i < n
            invariant
                i <= n,
                n == members.listing().len(),
                ids@ == members.listing().take(i as int),
            decreases n - i,
        {
            ids.push(*members.at(i));
            assert(members.listing().take(i as int + 1) =~= members.listing().take(i as int).push(
                members.listing()[i as int],
            ));
            i = i + 1;
        }
        assert(ids@ =~= members.listing());
        self.items_have_room(&ids, n)
    }

    /// Whether the counters of the queue have room for a command, which is what it takes to apply it.
    pub fn has_room_for(&self, cmd: &QueueCommand) -> (r: bool)
        ensures
            r == fits(self@, *cmd),
    {
        match cmd {
            QueueCommand::MutateItems(c) => self.counts_have_room(c.items.len()),
            QueueCommand::Push(items) => self.counts_have_room(items.len()),
            QueueCommand::ReplacePending(_) => self.counts_have_room(1),
            QueueCommand::Claim(c) => self.items_have_room(&c.item_ids, c.item_ids.len()),
            QueueCommand::CohortClaim(c) => self.items_have_room(&c.item_ids, c.item_ids.len()),
            QueueCommand::RenewLease(c) => self.items_have_room(&c.item_ids, c.item_ids.len()),
            QueueCommand::ReassignLease(c) => self.items_have_room(&c.item_ids, c.item_ids.len()),
            QueueCommand::UpdateFields(c) => {
                let mut ids: Vec<ItemId> = Vec::new();
                ids.push(c.item_id);
                assert(ids@.to_set() =~= set![c.item_id]) by {
                    assert(ids@[0] == c.item_id);
                }
                self.items_have_room(&ids, 1)
            },
            QueueCommand::UpdateFieldsBatch(cs) => self.items_have_room(&ids_updated(cs), cs.len()),
            QueueCommand::Finalize(os) => self.items_have_room(&ids_settled(os), os.len()),
            QueueCommand::LeaseExpired(ids) => self.items_have_room(ids, ids.len()),
            QueueCommand::CohortExpired(group) => self.group_has_room(group),
            _ => {
                let none: Vec<ItemId> = Vec::new();
                assert(none@.to_set() =~= Set::<ItemId>::empty());
                self.items_have_room(&none, 0)
            },
        }
    }
}

} // verus!
