//! The live lease tokens that a driver holds in memory, and the changes that commands make to them.

use crate::order::{OrdMap, OrdSet};
use crate::relational::memory::{DriverMemory, MemoryV, TokenOp, TokenV, all_cleared, all_given, lemma_notes_frame, noted, tokens_v};
use crate::types::{FinalizeOutcome, ItemId, QueueCommand, QueueKey, QueueV};
use vstd::prelude::*;

verus! {

pub open spec fn outcome_ids(o: Seq<FinalizeOutcome>) -> Seq<ItemId> {
    o.map_values(|x: FinalizeOutcome| x.item_id)
}

pub fn ids_of_outcomes(outcomes: &Vec<FinalizeOutcome>) -> (r: Vec<ItemId>)
    ensures
        r@ == outcome_ids(outcomes@),
{
    let mut out: Vec<ItemId> = Vec::new();
    let mut i: usize = 0;
    let ghost all = outcome_ids(outcomes@);
    while i < outcomes.len()
        invariant
            i <= outcomes@.len(),
            all == outcome_ids(outcomes@),
            out@ == all.take(i as int),
        decreases outcomes@.len() - i,
    {
        out.push(outcomes[i].item_id);
        assert(all.take(i as int + 1) =~= all.take(i as int).push(all[i as int]));
        i = i + 1;
    }
    assert(all.take(i as int) =~= all);
    out
}

/// The token changes of a command that the store has absorbed already.
pub open spec fn tokens_collected(m: MemoryV, q: QueueV, command: QueueCommand) -> MemoryV {
    match command {
        QueueCommand::Claim(c) => all_given(m, q, c.item_ids@, c.lease_token@),
        QueueCommand::CohortClaim(c) => all_given(m, q, c.item_ids@, c.lease_token@),
        QueueCommand::ReassignLease(c) => all_given(m, q, c.item_ids@, c.lease_token@),
        QueueCommand::Finalize(o) => all_cleared(m, q, outcome_ids(o@)),
        QueueCommand::PurgeItems(c) => all_cleared(m, q, c.item_ids@),
        QueueCommand::LeaseExpired(ids) => all_cleared(m, q, ids@),
        QueueCommand::ReplacePending(c) => noted(m, TokenV::Clear(q, c.superseded_item_id)),
        _ => m,
    }
}

/// Taking up a command's tokens changes nothing else.
pub proof fn lemma_tokens_frame(m: MemoryV, q: QueueV, command: QueueCommand)
    ensures
        tokens_collected(m, q, command) == (MemoryV {
            ops: tokens_collected(m, q, command).ops,
            ..m
        }),
{
    match command {
        QueueCommand::Claim(c) => lemma_notes_frame(m, q, c.item_ids@, c.lease_token@),
        QueueCommand::CohortClaim(c) => lemma_notes_frame(m, q, c.item_ids@, c.lease_token@),
        QueueCommand::ReassignLease(c) => lemma_notes_frame(m, q, c.item_ids@, c.lease_token@),
        QueueCommand::Finalize(o) => lemma_notes_frame(m, q, outcome_ids(o@), Seq::empty()),
        QueueCommand::PurgeItems(c) => lemma_notes_frame(m, q, c.item_ids@, Seq::empty()),
        QueueCommand::LeaseExpired(ids) => lemma_notes_frame(m, q, ids@, Seq::empty()),
        _ => {},
    }
}

/// Takes note of a command's token changes without a word to the store, as after a restart: the
/// store keeps only digests of the tokens.
pub fn collect_token_ops_from_command(
    memory: &mut DriverMemory,
    shard: &QueueKey,
    command: &QueueCommand,
)
    ensures
        final(memory)@ == tokens_collected(old(memory)@, shard@, *command),
{
    match command {
        QueueCommand::Claim(c) => memory.note_given(shard, &c.item_ids, &c.lease_token),
        QueueCommand::CohortClaim(c) => memory.note_given(shard, &c.item_ids, &c.lease_token),
        QueueCommand::ReassignLease(c) => memory.note_given(shard, &c.item_ids, &c.lease_token),
        QueueCommand::Finalize(o) => memory.note_cleared(shard, &ids_of_outcomes(o)),
        QueueCommand::PurgeItems(c) => memory.note_cleared(shard, &c.item_ids),
        QueueCommand::LeaseExpired(ids) => memory.note_cleared(shard, ids),
        QueueCommand::ReplacePending(c) => memory.note(
            TokenOp::Clear(shard.duplicate(), c.superseded_item_id),
        ),
        _ => {},
    }
}

/// The tokens of live leases, and the items under each token.
pub struct LiveTokens {
    pub tokens: OrdMap<(QueueKey, u64), String>,
    pub by_consumer: OrdSet<((QueueKey, String), u64)>,
}

pub ghost struct LiveV {
    pub tokens: Map<(QueueV, ItemId), Seq<char>>,
    pub by_consumer: Set<((QueueV, Seq<char>), ItemId)>,
}

pub open spec fn live_texts(m: Map<(QueueV, u64), String>) -> Map<(QueueV, u64), Seq<char>> {
    m.map_values(|t: String| t@)
}

/// No item is under a token but the one that it is leased under.
pub open spec fn tokens_exact(l: LiveV) -> bool {
    forall|q: QueueV, t: Seq<char>, id: ItemId|
        #[trigger] l.by_consumer.contains(((q, t), id)) <==> l.tokens.contains_key((q, id))
            && token_at(l, q, id) == t
}

pub open spec fn token_at(l: LiveV, q: QueueV, id: ItemId) -> Seq<char> {
    l.tokens[(q, id)]
}

pub open spec fn token_dropped(l: LiveV, q: QueueV, id: ItemId) -> LiveV {
    if l.tokens.contains_key((q, id)) {
        LiveV {
            tokens: l.tokens.remove((q, id)),
            by_consumer: l.by_consumer.remove(((q, l.tokens[(q, id)]), id)),
        }
    } else {
        l
    }
}

pub open spec fn token_applied(l: LiveV, op: TokenV) -> LiveV {
    match op {
        TokenV::Give(q, id, t) => {
            let d = token_dropped(l, q, id);
            LiveV {
                tokens: d.tokens.insert((q, id), t),
                by_consumer: d.by_consumer.insert(((q, t), id)),
            }
        },
        TokenV::Clear(q, id) => token_dropped(l, q, id),
    }
}

pub open spec fn tokens_applied(l: LiveV, ops: Seq<TokenV>) -> LiveV
    decreases ops.len(),
{
    if ops.len() == 0 {
        l
    } else {
        token_applied(tokens_applied(l, ops.drop_last()), ops.last())
    }
}

impl LiveTokens {
    pub open spec fn view(&self) -> LiveV {
        LiveV { tokens: live_texts(self.tokens@), by_consumer: self.by_consumer@ }
    }

    pub fn new() -> (r: LiveTokens)
        ensures
            r@ == (LiveV { tokens: Map::empty(), by_consumer: Set::empty() }),
    {
        let tokens: OrdMap<(QueueKey, u64), String> = OrdMap::new();
        assert(live_texts(tokens@) =~= Map::<(QueueV, ItemId), Seq<char>>::empty());
        LiveTokens { tokens, by_consumer: OrdSet::new() }
    }

    fn drop_token(&mut self, shard: &QueueKey, id: ItemId)
        ensures
            final(self)@ == token_dropped(old(self)@, shard@, id),
    {
        let key = (shard.duplicate(), id);
        let held = match self.tokens.get(&key) {
            None => return,
            Some(t) => t.clone(),
        };
        let ghost before = self.tokens@;
        self.tokens.remove(&key);
        assert(live_texts(self.tokens@) =~= live_texts(before).remove((shard@, id)));
        self.by_consumer.remove(&((shard.duplicate(), held), id));
    }

    fn take_op(&mut self, op: &TokenOp)
        ensures
            final(self)@ == token_applied(old(self)@, op@),
    {
        match op {
            TokenOp::Give(shard, id, token) => {
                self.drop_token(shard, *id);
                let ghost before = self.tokens@;
                self.tokens.insert((shard.duplicate(), *id), token.clone());
                assert(live_texts(self.tokens@) =~= live_texts(before).insert(
                    (shard@, *id),
                    token@,
                ));
                self.by_consumer.insert(((shard.duplicate(), token.clone()), *id));
            },
            TokenOp::Clear(shard, id) => self.drop_token(shard, *id),
        }
    }
}

/// Makes the noted changes of the live tokens, in order.
pub fn apply_token_ops(live: &mut LiveTokens, ops: &Vec<TokenOp>)
    ensures
        final(live)@ == tokens_applied(old(live)@, tokens_v(ops@)),
{
    let ghost start = live@;
    let ghost all = tokens_v(ops@);
    let mut i: usize = 0;
    assert(all.take(0) =~= Seq::<TokenV>::empty());
    while i < ops.len()
        invariant
            i <= ops@.len(),
            all == tokens_v(ops@),
            live@ == tokens_applied(start, all.take(i as int)),
        decreases ops@.len() - i,
    {
        proof {
            assert(all.take(i as int + 1).drop_last() =~= all.take(i as int));
            assert(all.take(i as int + 1).last() == ops@[i as int]@);
        }
        live.take_op(&ops[i]);
        i = i + 1;
    }
    assert(all.take(i as int) =~= all);
}

/// The two sides of the live tokens agree after any changes if they did before.
pub proof fn law_token_sides_agree(l: LiveV, ops: Seq<TokenV>)
    requires
        tokens_exact(l),
    ensures
        tokens_exact(tokens_applied(l, ops)),
    decreases ops.len(),
{
    if ops.len() > 0 {
        let n = tokens_applied(l, ops.drop_last());
        law_token_sides_agree(l, ops.drop_last());
        let op = ops.last();
        let a = token_applied(n, op);
        let (oq, oid) = match op {
            TokenV::Give(q, id, t) => (q, id),
            TokenV::Clear(q, id) => (q, id),
        };
        assert forall|q: QueueV, t: Seq<char>, id: ItemId|
            #[trigger] a.by_consumer.contains(((q, t), id)) <==> a.tokens.contains_key((q, id))
                && token_at(a, q, id) == t by {
            assert(n.by_consumer.contains(((q, t), id)) <==> n.tokens.contains_key((q, id))
                && token_at(n, q, id) == t);
            if q == oq && id == oid && n.tokens.contains_key((q, id)) {
                assert(n.by_consumer.contains(((q, token_at(n, q, id)), id)));
            }
        }
    }
}

/// A token given last is the one that is live.
pub proof fn law_last_token_counts(l: LiveV, q: QueueV, id: ItemId, token: Seq<char>)
    ensures
        token_applied(l, TokenV::Give(q, id, token)).tokens.contains_key((q, id)),
        token_at(token_applied(l, TokenV::Give(q, id, token)), q, id) == token,
        !token_applied(l, TokenV::Clear(q, id)).tokens.contains_key((q, id)),
{
}

} // verus!
