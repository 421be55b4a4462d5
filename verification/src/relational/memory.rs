//! What a driver keeps in memory beside the store.

use crate::order::{OrdMap, OrdSet};
use crate::relational::script::{Script, bind};
use crate::types::{ErrorV, ItemId, QueueKey, QueueV};
use vstd::prelude::*;

verus! {

/// A change of the live lease tokens, to be made once the transaction has committed.
#[derive(Debug)]
pub enum TokenOp {
    Give(QueueKey, ItemId, String),
    Clear(QueueKey, ItemId),
}

pub ghost enum TokenV {
    Give(QueueV, ItemId, Seq<char>),
    Clear(QueueV, ItemId),
}

impl TokenOp {
    pub open spec fn view(&self) -> TokenV {
        match self {
            TokenOp::Give(q, i, t) => TokenV::Give(q@, *i, t@),
            TokenOp::Clear(q, i) => TokenV::Clear(q@, *i),
        }
    }
}

pub open spec fn tokens_v(ops: Seq<TokenOp>) -> Seq<TokenV> {
    ops.map_values(|o: TokenOp| o@)
}

/// The queues that hold grouped items, how far each claim scan has come, which queues have only
/// plain items, and the token changes to be made.
pub struct DriverMemory {
    pub grouped_shards: OrdSet<QueueKey>,
    pub claim_scan_hints: OrdMap<QueueKey, i64>,
    pub claim_scan_default_fifo: OrdMap<QueueKey, bool>,
    pub token_ops: Vec<TokenOp>,
}

pub ghost struct MemoryV {
    pub grouped: Set<QueueV>,
    pub hints: Map<QueueV, i64>,
    pub fifo: Map<QueueV, bool>,
    pub ops: Seq<TokenV>,
}

impl DriverMemory {
    pub open spec fn view(&self) -> MemoryV {
        MemoryV {
            grouped: self.grouped_shards@,
            hints: self.claim_scan_hints@,
            fifo: self.claim_scan_default_fifo@,
            ops: tokens_v(self.token_ops@),
        }
    }

    pub fn new() -> (r: DriverMemory)
        ensures
            r@ == (MemoryV {
                grouped: Set::empty(),
                hints: Map::empty(),
                fifo: Map::empty(),
                ops: Seq::empty(),
            }),
    {
        let token_ops: Vec<TokenOp> = Vec::new();
        assert(tokens_v(token_ops@) =~= Seq::<TokenV>::empty());
        DriverMemory {
            grouped_shards: OrdSet::new(),
            claim_scan_hints: OrdMap::new(),
            claim_scan_default_fifo: OrdMap::new(),
            token_ops,
        }
    }

    /// Whether a queue is known to hold only plain items.
    pub fn is_fifo(&self, shard: &QueueKey) -> (r: bool)
        ensures
            r == plain(self@, shard@),
    {
        match self.claim_scan_default_fifo.get(shard) {
            Some(b) => *b,
            None => false,
        }
    }

    pub fn note(&mut self, op: TokenOp)
        ensures
            final(self)@ == noted(old(self)@, op@),
    {
        let ghost before = self.token_ops@;
        self.token_ops.push(op);
        assert(tokens_v(self.token_ops@) =~= tokens_v(before).push(op@));
    }

    /// Notes that the items were leased under a token.
    pub fn note_given(&mut self, shard: &QueueKey, ids: &Vec<ItemId>, token: &String)
        ensures
            final(self)@ == all_given(old(self)@, shard@, ids@, token@),
    {
        let ghost start = self@;
        let mut i: usize = 0;
        assert(ids@.take(0) =~= Seq::<ItemId>::empty());
        while i < ids.len()
            invariant
                i <= ids@.len(),
                self@ == all_given(start, shard@, ids@.take(i as int), token@),
            decreases ids@.len() - i,
        {
            self.note(TokenOp::Give(shard.duplicate(), ids[i], token.clone()));
            proof {
                assert(ids@.take(i as int + 1).drop_last() =~= ids@.take(i as int));
                assert(ids@.take(i as int + 1).last() == ids@[i as int]);
            }
            i = i + 1;
        }
        assert(ids@.take(i as int) =~= ids@);
    }

    /// Notes that the items are leased no more.
    pub fn note_cleared(&mut self, shard: &QueueKey, ids: &Vec<ItemId>)
        ensures
            final(self)@ == all_cleared(old(self)@, shard@, ids@),
    {
        let ghost start = self@;
        let mut i: usize = 0;
        assert(ids@.take(0) =~= Seq::<ItemId>::empty());
        while i < ids.len()
            invariant
                i <= ids@.len(),
                self@ == all_cleared(start, shard@, ids@.take(i as int)),
            decreases ids@.len() - i,
        {
            self.note(TokenOp::Clear(shard.duplicate(), ids[i]));
            proof {
                assert(ids@.take(i as int + 1).drop_last() =~= ids@.take(i as int));
                assert(ids@.take(i as int + 1).last() == ids@[i as int]);
            }
            i = i + 1;
        }
        assert(ids@.take(i as int) =~= ids@);
    }

    /// Moves the claim scan of a queue on, never back.
    pub fn advance_hint(&mut self, shard: &QueueKey, next: i64)
        ensures
            final(self)@ == hint_advanced(old(self)@, shard@, next),
    {
        let current = match self.claim_scan_hints.get(shard) {
            Some(v) => *v,
            None => 0,
        };
        if next > current {
            self.claim_scan_hints.insert(shard.duplicate(), next);
        } else {
            self.claim_scan_hints.insert(shard.duplicate(), current);
        }
    }

    pub fn join_grouped(&mut self, shard: &QueueKey)
        ensures
            final(self)@ == (MemoryV {
                grouped: old(self)@.grouped.insert(shard@),
                ..old(self)@
            }),
    {
        self.grouped_shards.insert(shard.duplicate());
    }
}

/// The queue is known to hold only plain items.
pub open spec fn plain(m: MemoryV, q: QueueV) -> bool {
    m.fifo.contains_key(q) && m.fifo[q]
}

pub open spec fn noted(m: MemoryV, op: TokenV) -> MemoryV {
    MemoryV { ops: m.ops.push(op), ..m }
}

pub open spec fn all_given(m: MemoryV, q: QueueV, ids: Seq<ItemId>, token: Seq<char>) -> MemoryV
    decreases ids.len(),
{
    if ids.len() == 0 {
        m
    } else {
        noted(all_given(m, q, ids.drop_last(), token), TokenV::Give(q, ids.last(), token))
    }
}

pub open spec fn all_cleared(m: MemoryV, q: QueueV, ids: Seq<ItemId>) -> MemoryV
    decreases ids.len(),
{
    if ids.len() == 0 {
        m
    } else {
        noted(all_cleared(m, q, ids.drop_last()), TokenV::Clear(q, ids.last()))
    }
}

/// Notes on tokens change nothing else.
pub proof fn lemma_notes_frame(m: MemoryV, q: QueueV, ids: Seq<ItemId>, token: Seq<char>)
    ensures
        all_given(m, q, ids, token) == (MemoryV { ops: all_given(m, q, ids, token).ops, ..m }),
        all_cleared(m, q, ids) == (MemoryV { ops: all_cleared(m, q, ids).ops, ..m }),
    decreases ids.len(),
{
    if ids.len() > 0 {
        lemma_notes_frame(m, q, ids.drop_last(), token);
    }
}

pub open spec fn hint_of(m: MemoryV, q: QueueV) -> i64 {
    if m.hints.contains_key(q) {
        m.hints[q]
    } else {
        0
    }
}

pub open spec fn hint_advanced(m: MemoryV, q: QueueV, next: i64) -> MemoryV {
    MemoryV {
        hints: m.hints.insert(
            q,
            if next > hint_of(m, q) {
                next
            } else {
                hint_of(m, q)
            },
        ),
        ..m
    }
}

/// The claim scan of a queue starts over, and its items are no longer taken as plain.
pub open spec fn hint_reset(m: MemoryV, q: QueueV) -> MemoryV {
    MemoryV { hints: m.hints.remove(q), fifo: m.fifo.insert(q, false), ..m }
}

/// The outcome of a conversation, with the memory it leaves.
pub type Kept<A> = (MemoryV, Result<A, ErrorV>);

/// A conversation that leaves the memory alone, and then one that may change it.
pub open spec fn hold<A, B>(
    mem: MemoryV,
    m: Script<Result<A, ErrorV>>,
    k: spec_fn(A) -> Script<Kept<B>>,
) -> Script<Kept<B>> {
    bind(
        m,
        |r: Result<A, ErrorV>|
            match r {
                Ok(a) => k(a),
                Err(e) => Script::Done((mem, Err::<B, ErrorV>(e))),
            },
    )
}

/// A conversation that may change the memory, and then another.
pub open spec fn pass<A, B>(
    m: Script<Kept<A>>,
    k: spec_fn(MemoryV, A) -> Script<Kept<B>>,
) -> Script<Kept<B>> {
    bind(
        m,
        |r: Kept<A>|
            match r.1 {
                Ok(a) => k(r.0, a),
                Err(e) => Script::Done((r.0, Err::<B, ErrorV>(e))),
            },
    )
}

/// One conversation for each member of a list, with the memory that those before it left.
pub open spec fn each_kept<A>(
    mem: MemoryV,
    list: Seq<A>,
    f: spec_fn(MemoryV, A) -> Script<Kept<()>>,
) -> Script<Kept<()>>
    decreases list.len(),
{
    if list.len() == 0 {
        Script::Done((mem, Ok(())))
    } else {
        pass(f(mem, list[0]), |n: MemoryV, u: ()| each_kept(n, list.drop_first(), f))
    }
}

/// The scan of a queue never goes back while it is only advanced.
pub proof fn law_hints_never_go_back(m: MemoryV, q: QueueV, next: i64)
    ensures
        hint_of(hint_advanced(m, q, next), q) >= hint_of(m, q),
        hint_of(hint_advanced(m, q, next), q) >= next,
{
}

} // verus!
