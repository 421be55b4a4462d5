//! The order in which eligible items are handed out, and the index that keeps them in it.

use crate::encoding::{be_bytes, lemma_be_bytes_len, lemma_be_order, lift_i64, pow256, push_be_u128, push_be_u32, push_be_u64, sign_lifted};
use crate::item::{Item, ItemRecord};
use crate::order::{OrdSet, OrderKey, Standing, ascending, bytes_lt, bytes_standing, lemma_ascending_at, lemma_ascending_distinct, lemma_bytes_lt_irreflexive, lemma_bytes_lt_total, lemma_bytes_lt_transitive, lemma_listing_exists, lemma_listing_of, lemma_lt_asymmetric, listing_of, text_lt};
use crate::text::{clone_bytes, clone_opt_text, opt_text};
use crate::types::{ItemId, PriorityDirection, PriorityModel, PriorityModelKind, PriorityV, PriorityValue, UtcTimestamp, ts_le};
use vstd::prelude::*;
use vstd::string::*;
use vstd::utf8::encode_utf8;

verus! {

/// The bytes of a priority whose order is that of the priorities.
pub open spec fn priority_bytes(p: PriorityV) -> Seq<u8> {
    match p {
        PriorityV::Timestamp(t) => be_bytes(sign_lifted(t.seconds as int), 8) + be_bytes(
            t.nanoseconds as nat,
            4,
        ),
        PriorityV::Int64(v) => be_bytes(sign_lifted(v as int), 8),
        PriorityV::Decimal(v) => be_bytes((v + 0x8000_0000_0000_0000_0000_0000_0000_0000) as nat, 16),
        PriorityV::Text(t) => encode_utf8(t),
    }
}

/// Bytes turned over, so that their order is reversed.
pub open spec fn turned(s: Seq<u8>) -> Seq<u8> {
    s.map_values(|b: u8| (255 - b) as u8)
}

/// The sort bytes of a priority under a model.
pub open spec fn sort_bytes(p: PriorityV, model: PriorityModel) -> Seq<u8> {
    match model.direction {
        PriorityDirection::Ascending => priority_bytes(p),
        PriorityDirection::Descending => match p {
            PriorityV::Text(_) => turned(priority_bytes(p)).push(255u8),
            _ => turned(priority_bytes(p)),
        },
    }
}

fn turn(v: &Vec<u8>) -> (r: Vec<u8>)
    ensures
        r@ == turned(v@),
{
    let mut out: Vec<u8> = Vec::new();
    let mut i: usize = 0;
    while i < v.len()
        invariant
            i <= v@.len(),
            out@ == turned(v@).take(i as int),
        decreases v@.len() - i,
    {
        out.push(255 - v[i]);
        assert(turned(v@).take(i as int + 1) =~= turned(v@).take(i as int).push(
            turned(v@)[i as int],
        ));
        i = i + 1;
    }
    assert(turned(v@).take(v@.len() as int) =~= turned(v@));
    out
}

/// The sort bytes of a priority.
pub fn priority_sort(p: &PriorityValue, model: &PriorityModel) -> (r: Vec<u8>)
    ensures
        r@ == sort_bytes(p@, *model),
{
    let mut out: Vec<u8> = Vec::new();
    match p {
        PriorityValue::Timestamp(t) => {
            push_be_u64(&mut out, lift_i64(t.seconds));
            push_be_u32(&mut out, t.nanoseconds);
        },
        PriorityValue::Int64(v) => {
            push_be_u64(&mut out, lift_i64(*v));
        },
        PriorityValue::Decimal(v) => {
            let lifted: u128 = if *v < 0 {
                (*v + i128::MAX + 1) as u128
            } else {
                (*v as u128) + 0x8000_0000_0000_0000_0000_0000_0000_0000u128
            };
            push_be_u128(&mut out, lifted);
        },
        PriorityValue::Text(t) => {
            out = t.as_str().as_bytes_vec();
        },
    }
    assert(out@ =~= priority_bytes(p@));
    match model.direction {
        PriorityDirection::Ascending => out,
        PriorityDirection::Descending => {
            let mut turned_out = turn(&out);
            match p {
                PriorityValue::Text(_) => {
                    turned_out.push(255u8);
                },
                _ => {},
            }
            turned_out
        },
    }
}

/// Priced items come before unpriced ones.
pub enum EligRank {
    Priced(Vec<u8>),
    Unpriced,
}

pub ghost enum RankV {
    Priced(Seq<u8>),
    Unpriced,
}

impl OrderKey for EligRank {
    type V = RankV;

    open spec fn kv(&self) -> RankV {
        match self {
            EligRank::Priced(b) => RankV::Priced(b@),
            EligRank::Unpriced => RankV::Unpriced,
        }
    }

    open spec fn kless(a: RankV, b: RankV) -> bool {
        match (a, b) {
            (RankV::Priced(x), RankV::Priced(y)) => bytes_lt(x, y),
            (RankV::Priced(_), RankV::Unpriced) => true,
            _ => false,
        }
    }

    proof fn lt_irreflexive(a: RankV) {
        if let RankV::Priced(x) = a {
            lemma_bytes_lt_irreflexive(x);
        }
    }

    proof fn lt_transitive(a: RankV, b: RankV, c: RankV) {
        match (a, b, c) {
            (RankV::Priced(x), RankV::Priced(y), RankV::Priced(z)) => {
                lemma_bytes_lt_transitive(x, y, z);
            },
            _ => {},
        }
    }

    proof fn lt_total(a: RankV, b: RankV) {
        match (a, b) {
            (RankV::Priced(x), RankV::Priced(y)) => {
                lemma_bytes_lt_total(x, y);
            },
            _ => {},
        }
    }

    fn standing(&self, other: &EligRank) -> (r: Standing) {
        match (self, other) {
            (EligRank::Priced(x), EligRank::Priced(y)) => bytes_standing(x.as_slice(), y.as_slice()),
            (EligRank::Priced(_), EligRank::Unpriced) => Standing::Below,
            (EligRank::Unpriced, EligRank::Priced(_)) => Standing::Above,
            (EligRank::Unpriced, EligRank::Unpriced) => Standing::Same,
        }
    }
}

/// An eligible item's place: by rank, then by creation.
pub struct EligKey {
    pub rank: EligRank,
    pub created_seq: u64,
    pub item: ItemId,
    pub not_before: Option<UtcTimestamp>,
    pub group_key: Option<String>,
}

pub ghost struct EligV {
    pub rank: RankV,
    pub created_seq: u64,
    pub item: ItemId,
    pub not_before: Option<UtcTimestamp>,
    pub group_key: Option<Seq<char>>,
}

pub open spec fn elig_lt(a: EligV, b: EligV) -> bool {
    ||| EligRank::kless(a.rank, b.rank)
    ||| a.rank == b.rank && a.created_seq < b.created_seq
    ||| a.rank == b.rank && a.created_seq == b.created_seq && a.item < b.item
    ||| a.rank == b.rank && a.created_seq == b.created_seq && a.item == b.item && Option::<
        UtcTimestamp,
    >::kless(a.not_before, b.not_before)
    ||| a.rank == b.rank && a.created_seq == b.created_seq && a.item == b.item && a.not_before
        == b.not_before && Option::<String>::kless(a.group_key, b.group_key)
}

impl OrderKey for EligKey {
    type V = EligV;

    open spec fn kv(&self) -> EligV {
        EligV {
            rank: self.rank.kv(),
            created_seq: self.created_seq,
            item: self.item,
            not_before: self.not_before,
            group_key: opt_text(self.group_key),
        }
    }

    open spec fn kless(a: EligV, b: EligV) -> bool {
        elig_lt(a, b)
    }

    proof fn lt_irreflexive(a: EligV) {
        EligRank::lt_irreflexive(a.rank);
        Option::<UtcTimestamp>::lt_irreflexive(a.not_before);
        Option::<String>::lt_irreflexive(a.group_key);
    }

    proof fn lt_transitive(a: EligV, b: EligV, c: EligV) {
        if EligRank::kless(a.rank, b.rank) && EligRank::kless(b.rank, c.rank) {
            EligRank::lt_transitive(a.rank, b.rank, c.rank);
        }
        if Option::<UtcTimestamp>::kless(a.not_before, b.not_before) && Option::<UtcTimestamp>::kless(
            b.not_before,
            c.not_before,
        ) {
            Option::<UtcTimestamp>::lt_transitive(a.not_before, b.not_before, c.not_before);
        }
        if Option::<String>::kless(a.group_key, b.group_key) && Option::<String>::kless(
            b.group_key,
            c.group_key,
        ) {
            Option::<String>::lt_transitive(a.group_key, b.group_key, c.group_key);
        }
    }

    proof fn lt_total(a: EligV, b: EligV) {
        EligRank::lt_total(a.rank, b.rank);
        Option::<UtcTimestamp>::lt_total(a.not_before, b.not_before);
        Option::<String>::lt_total(a.group_key, b.group_key);
    }

    fn standing(&self, other: &EligKey) -> (r: Standing) {
        proof {
            lemma_lt_asymmetric::<EligRank>(self.kv().rank, other.kv().rank);
            lemma_lt_asymmetric::<EligRank>(other.kv().rank, self.kv().rank);
            lemma_lt_asymmetric::<Option<UtcTimestamp>>(self.not_before, other.not_before);
            lemma_lt_asymmetric::<Option<UtcTimestamp>>(other.not_before, self.not_before);
            assert(self.group_key.kv() == self.kv().group_key);
            assert(other.group_key.kv() == other.kv().group_key);
            assert(self.not_before.kv() == self.not_before);
            assert(other.not_before.kv() == other.not_before);
        }
        match self.rank.standing(&other.rank) {
            Standing::Below => Standing::Below,
            Standing::Above => Standing::Above,
            Standing::Same => {
                if self.created_seq < other.created_seq {
                    Standing::Below
                } else if self.created_seq > other.created_seq {
                    Standing::Above
                } else if self.item < other.item {
                    Standing::Below
                } else if self.item > other.item {
                    Standing::Above
                } else {
                    match self.not_before.standing(&other.not_before) {
                        Standing::Below => Standing::Below,
                        Standing::Above => Standing::Above,
                        Standing::Same => self.group_key.standing(&other.group_key),
                    }
                }
            },
        }
    }
}

impl EligKey {
    pub fn duplicate(&self) -> (r: EligKey)
        ensures
            r.kv() == self.kv(),
    {
        EligKey {
            rank: match &self.rank {
                EligRank::Priced(b) => EligRank::Priced(crate::text::clone_bytes(b)),
                EligRank::Unpriced => EligRank::Unpriced,
            },
            created_seq: self.created_seq,
            item: self.item,
            not_before: self.not_before,
            group_key: clone_opt_text(&self.group_key),
        }
    }
}

/// The place of an item.
pub open spec fn key_of(i: Item, model: PriorityModel) -> EligV {
    EligV {
        rank: match i.priority {
            Some(p) => RankV::Priced(sort_bytes(p, model)),
            None => RankV::Unpriced,
        },
        created_seq: i.created_seq,
        item: i.item_id,
        not_before: i.not_before,
        group_key: i.group_key,
    }
}

pub fn elig_key(rec: &ItemRecord, model: &PriorityModel) -> (r: EligKey)
    ensures
        r.kv() == key_of(rec@, *model),
{
    let rank = match &rec.priority {
        Some(p) => EligRank::Priced(priority_sort(p, model)),
        None => EligRank::Unpriced,
    };
    EligKey {
        rank,
        created_seq: rec.created_seq,
        item: rec.item_id,
        not_before: rec.not_before,
        group_key: clone_opt_text(&rec.group_key),
    }
}

/// The place of an item that has no priority, schedule or group.
pub open spec fn plain_key(seq: u64, item: ItemId) -> EligV {
    EligV { rank: RankV::Unpriced, created_seq: seq, item, not_before: None, group_key: None }
}

pub open spec fn is_plain(k: EligV) -> bool {
    k.rank is Unpriced && k.not_before is None && k.group_key is None
}

/// Whether an item at this place may be handed out by now.
pub open spec fn due(k: EligV, now: UtcTimestamp) -> bool {
    match k.not_before {
        Some(nb) => ts_le(nb, now),
        None => true,
    }
}

pub fn due_at(key: &EligKey, now: UtcTimestamp) -> (r: bool)
    ensures
        r == due(key.kv(), now),
{
    match key.not_before {
        Some(nb) => nb.at_most(&now),
        None => true,
    }
}

/// The first `max` places of the list that are due, in order.
pub open spec fn due_keys(l: Seq<EligV>, now: UtcTimestamp, max: nat) -> Seq<EligV>
    decreases l.len(),
{
    if l.len() == 0 || max == 0 {
        Seq::empty()
    } else if due(l[0], now) {
        seq![l[0]] + due_keys(l.drop_first(), now, (max - 1) as nat)
    } else {
        due_keys(l.drop_first(), now, max)
    }
}

pub open spec fn items_of(l: Seq<EligV>) -> Seq<ItemId> {
    l.map_values(|k: EligV| k.item)
}

/// A place in the order that puts the members of a group together: groups first, by name; within a
/// group, and among the ungrouped, by the strict order.
pub struct LocalKey {
    pub key: EligKey,
}

pub open spec fn local_lt(a: EligV, b: EligV) -> bool {
    match (a.group_key, b.group_key) {
        (Some(_), None) => true,
        (None, Some(_)) => false,
        (None, None) => elig_lt(a, b),
        (Some(x), Some(y)) => text_lt(x, y) || (x == y && elig_lt(a, b)),
    }
}

impl OrderKey for LocalKey {
    type V = EligV;

    open spec fn kv(&self) -> EligV {
        self.key.kv()
    }

    open spec fn kless(a: EligV, b: EligV) -> bool {
        local_lt(a, b)
    }

    proof fn lt_irreflexive(a: EligV) {
        EligKey::lt_irreflexive(a);
        if let Some(x) = a.group_key {
            String::lt_irreflexive(x);
        }
    }

    proof fn lt_transitive(a: EligV, b: EligV, c: EligV) {
        if elig_lt(a, b) && elig_lt(b, c) {
            EligKey::lt_transitive(a, b, c);
        }
        match (a.group_key, b.group_key, c.group_key) {
            (Some(x), Some(y), Some(z)) => {
                if text_lt(x, y) && text_lt(y, z) {
                    String::lt_transitive(x, y, z);
                }
            },
            _ => {},
        }
    }

    proof fn lt_total(a: EligV, b: EligV) {
        EligKey::lt_total(a, b);
        match (a.group_key, b.group_key) {
            (Some(x), Some(y)) => {
                String::lt_total(x, y);
            },
            _ => {},
        }
    }

    fn standing(&self, other: &LocalKey) -> (r: Standing) {
        proof {
            lemma_lt_asymmetric::<EligKey>(self.kv(), other.kv());
            lemma_lt_asymmetric::<EligKey>(other.kv(), self.kv());
        }
        match (&self.key.group_key, &other.key.group_key) {
            (Some(_), None) => Standing::Below,
            (None, Some(_)) => Standing::Above,
            (None, None) => self.key.standing(&other.key),
            (Some(x), Some(y)) => {
                proof {
                    lemma_lt_asymmetric::<String>(x@, y@);
                    lemma_lt_asymmetric::<String>(y@, x@);
                }
                match x.standing(y) {
                    Standing::Below => Standing::Below,
                    Standing::Above => Standing::Above,
                    Standing::Same => self.key.standing(&other.key),
                }
            },
        }
    }
}

/// A list cut into blocks of `block`, each put in the order that keeps groups together.
pub open spec fn by_locality(l: Seq<EligV>, block: nat) -> Seq<EligV>
    decreases l.len(),
{
    if l.len() == 0 || block == 0 {
        l
    } else {
        let n = if block <= l.len() {
            block as int
        } else {
            l.len() as int
        };
        listing_of::<LocalKey>(l.take(n).to_set()) + by_locality(l.skip(n), block)
    }
}

/// The places of the eligible items. While none has a priority, schedule or group, only the
/// creation order is kept.
pub enum EligibilityIndex {
    Compact(OrdSet<(u64, u64)>),
    Rich(OrdSet<EligKey>),
}

/// The places that creation order stands for.
pub open spec fn plain_keys(c: Set<(u64, u64)>) -> Set<EligV> {
    Set::new(|k: EligV| is_plain(k) && c.contains((k.created_seq, k.item)))
}

pub open spec fn plain_list(l: Seq<(u64, u64)>) -> Seq<EligV> {
    l.map_values(|p: (u64, u64)| plain_key(p.0, p.1))
}

proof fn lemma_plain_listing(l: Seq<(u64, u64)>)
    requires
        ascending::<(u64, u64)>(l),
    ensures
        ascending::<EligKey>(plain_list(l)),
        plain_list(l).to_set() == plain_keys(l.to_set()),
        listing_of::<EligKey>(plain_keys(l.to_set())) == plain_list(l),
{
    let q = plain_list(l);
    assert forall|i: int, j: int| 0 <= i < j < q.len() implies EligKey::kless(
        #[trigger] q[i],
        #[trigger] q[j],
    ) by {
        lemma_ascending_at::<(u64, u64)>(l, i, j);
    }
    assert forall|k: EligV| q.to_set().contains(k) == plain_keys(l.to_set()).contains(k) by {
        if q.to_set().contains(k) {
            let i = choose|i: int| 0 <= i < q.len() && q[i] == k;
            assert(l.to_set().contains(l[i]));
        }
        if plain_keys(l.to_set()).contains(k) {
            let i = choose|i: int| 0 <= i < l.len() && l[i] == (k.created_seq, k.item);
            assert(q[i] == k);
        }
    }
    assert(q.to_set() =~= plain_keys(l.to_set()));
    lemma_listing_of::<EligKey>(q);
}

impl EligibilityIndex {
    pub open spec fn view(&self) -> Set<EligV> {
        match self {
            EligibilityIndex::Compact(c) => plain_keys(c@),
            EligibilityIndex::Rich(r) => r@,
        }
    }

    pub open spec fn compact(&self) -> bool {
        self is Compact
    }

    pub fn new() -> (r: EligibilityIndex)
        ensures
            r@ == Set::<EligV>::empty(),
            r.compact(),
    {
        let r = EligibilityIndex::Compact(OrdSet::new());
        assert(r@ =~= Set::<EligV>::empty());
        r
    }

    /// Puts every place in full in the place of its creation order.
    pub fn promote(self) -> (r: OrdSet<EligKey>)
        ensures
            r@ == self@,
    {
        match self {
            EligibilityIndex::Rich(rich) => rich,
            EligibilityIndex::Compact(c) => {
                let mut rich: OrdSet<EligKey> = OrdSet::new();
                let n = c.len();
                let mut i: usize = 0;
                let ghost l = c.listing();
                assert(plain_keys(l.take(0).to_set()) =~= Set::<EligV>::empty());
                while i < n
                    invariant
                        i <= n,
                        n == c.listing().len(),
                        l == c.listing(),
                        rich@ == plain_keys(l.take(i as int).to_set()),
                    decreases n - i,
                {
                    let p = c.at(i);
                    let key = EligKey {
                        rank: EligRank::Unpriced,
                        created_seq: p.0,
                        item: p.1,
                        not_before: None,
                        group_key: None,
                    };
                    assert(key.kv() == plain_key(l[i as int].0, l[i as int].1));
                    rich.insert(key);
                    proof {
                        let a = l.take(i as int);
                        let b = l.take(i as int + 1);
                        assert(b =~= a.push(l[i as int]));
                        assert forall|k: EligV| plain_keys(b.to_set()).contains(k) == plain_keys(
                            a.to_set(),
                        ).insert(key.kv()).contains(k) by {
                            if b.contains((k.created_seq, k.item)) {
                                let j = choose|j: int|
                                    0 <= j < b.len() && b[j] == (k.created_seq, k.item);
                                if j < i {
                                    assert(a[j] == b[j]);
                                }
                            }
                            if a.contains((k.created_seq, k.item)) {
                                let j = choose|j: int|
                                    0 <= j < a.len() && a[j] == (k.created_seq, k.item);
                                assert(b[j] == a[j]);
                            }
                            assert(b[i as int] == l[i as int]);
                        }
                        assert(plain_keys(b.to_set()) =~= plain_keys(a.to_set()).insert(key.kv()));
                    }
                    i = i + 1;
                }
                assert(l.take(n as int) =~= l);
                rich
            },
        }
    }

    /// Adds a place.
    pub fn insert(&mut self, key: EligKey)
        ensures
            final(self)@ == old(self)@.insert(key.kv()),
            final(self).compact() == (old(self).compact() && is_plain(key.kv())),
    {
        let ghost before = self@;
        let mut held = EligibilityIndex::new();
        std::mem::swap(&mut held, self);
        let plain = match (&key.rank, &key.not_before, &key.group_key) {
            (EligRank::Unpriced, None, None) => true,
            _ => false,
        };
        assert(plain == is_plain(key.kv()));
        match held {
            EligibilityIndex::Compact(c) => {
                let mut c = c;
                if plain {
                    let ghost c0 = c@;
                    c.insert((key.created_seq, key.item));
                    assert(plain_keys(c@) =~= plain_keys(c0).insert(key.kv()));
                    *self = EligibilityIndex::Compact(c);
                } else {
                    let mut rich = EligibilityIndex::Compact(c).promote();
                    rich.insert(key);
                    *self = EligibilityIndex::Rich(rich);
                }
            },
            EligibilityIndex::Rich(r) => {
                let mut rich = r;
                rich.insert(key);
                *self = EligibilityIndex::Rich(rich);
            },
        }
    }

    /// Takes a place out. In creation order the place is named by its creation alone.
    pub fn remove(&mut self, key: &EligKey)
        ensures
            final(self)@ == removed_place(old(self)@, old(self).compact(), key.kv()),
            final(self).compact() == old(self).compact(),
    {
        let mut held = EligibilityIndex::new();
        std::mem::swap(&mut held, self);
        match held {
            EligibilityIndex::Compact(c) => {
                let mut c = c;
                let ghost c0 = c@;
                c.remove(&(key.created_seq, key.item));
                assert(plain_keys(c@) =~= plain_keys(c0).remove(
                    plain_key(key.created_seq, key.item),
                ));
                *self = EligibilityIndex::Compact(c);
            },
            EligibilityIndex::Rich(r) => {
                let mut rich = r;
                rich.remove(key);
                *self = EligibilityIndex::Rich(rich);
            },
        }
    }

    /// The first `max` items by place, those not yet due left out.
    pub fn strict_candidates(&self, now: UtcTimestamp, max: usize) -> (r: Vec<ItemId>)
        ensures
            r@ == items_of(due_keys(listing_of::<EligKey>(self@), now, max as nat)),
    {
        self.due_from(0, now, max)
    }

    /// The number of places.
    fn count(&self) -> (r: usize)
        ensures
            r == listing_of::<EligKey>(self@).len(),
    {
        match self {
            EligibilityIndex::Compact(c) => {
                let n = c.len();
                proof {
                    lemma_plain_listing(c.listing());
                }
                n
            },
            EligibilityIndex::Rich(rich) => rich.len(),
        }
    }

    /// The first `max` due items at position `from` of the order or later.
    fn due_from(&self, from: usize, now: UtcTimestamp, max: usize) -> (r: Vec<ItemId>)
        requires
            from <= listing_of::<EligKey>(self@).len(),
        ensures
            r@ == items_of(
                due_keys(listing_of::<EligKey>(self@).skip(from as int), now, max as nat),
            ),
            from == 0 ==> r@ == items_of(
                due_keys(listing_of::<EligKey>(self@), now, max as nat),
            ),
    {
        let ghost l = listing_of::<EligKey>(self@);
        assert(l.skip(0) =~= l);
        let mut out: Vec<ItemId> = Vec::new();
        let n = self.count();
        let mut i: usize = from;
        assert(items_of(Seq::empty()) =~= Seq::<ItemId>::empty());
        assert(out@ + items_of(due_keys(l.skip(from as int), now, max as nat)) =~= items_of(
            due_keys(l.skip(from as int), now, max as nat),
        ));
        while i < n && out.len() < max
            invariant
                from <= i <= n,
                n == l.len(),
                l == listing_of::<EligKey>(self@),
                out@.len() <= max,
                out@ + items_of(due_keys(l.skip(i as int), now, (max - out@.len()) as nat))
                    == items_of(due_keys(l.skip(from as int), now, max as nat)),
            decreases n - i,
        {
            let ghost rest = l.skip(i as int);
            assert(rest[0] == l[i as int]);
            assert(rest.drop_first() =~= l.skip(i as int + 1));
            match self.item_at(i, now) {
                Some(item) => {
                    let ghost before = out@;
                    out.push(item);
                    proof {
                        let tail = due_keys(rest.drop_first(), now, (max - before.len() - 1) as nat);
                        assert(items_of(seq![rest[0]] + tail) =~= seq![item] + items_of(tail));
                        assert(before + (seq![item] + items_of(tail)) =~= out@ + items_of(tail));
                    }
                },
                None => {},
            }
            i = i + 1;
        }
        proof {
            let d = due_keys(l.skip(i as int), now, (max - out@.len()) as nat);
            assert(d =~= Seq::<EligV>::empty());
            assert(items_of(d) =~= Seq::<ItemId>::empty());
            assert(out@ + items_of(d) =~= out@);
        }
        out
    }

    /// The item at a position of the order, if it is due.
    fn item_at(&self, i: usize, now: UtcTimestamp) -> (r: Option<ItemId>)
        requires
            i < listing_of::<EligKey>(self@).len(),
        ensures
            r == (if due(listing_of::<EligKey>(self@)[i as int], now) {
                Some(listing_of::<EligKey>(self@)[i as int].item)
            } else {
                None
            }),
    {
        match self {
            EligibilityIndex::Compact(c) => {
                let n = c.len();
                proof {
                    lemma_plain_listing(c.listing());
                }
                Some(c.at(i).1)
            },
            EligibilityIndex::Rich(rich) => {
                let n = rich.len();
                let key = rich.at(i);
                if due_at(key, now) {
                    Some(key.item)
                } else {
                    None
                }
            },
        }
    }
}

/// The places of an ascending list that come after `k`.
pub open spec fn later_than(l: Seq<EligV>, k: EligV) -> Seq<EligV>
    decreases l.len(),
{
    if l.len() == 0 || elig_lt(k, l[0]) {
        l
    } else {
        later_than(l.drop_first(), k)
    }
}

proof fn lemma_later_than(l: Seq<EligV>, k: EligV, p: int)
    requires
        0 <= p <= l.len(),
        forall|i: int| 0 <= i < l.len() ==> (i < p <==> !elig_lt(k, #[trigger] l[i])),
    ensures
        later_than(l, k) == l.skip(p),
    decreases l.len(),
{
    if p == 0 {
        assert(l.skip(0) =~= l);
        if l.len() > 0 {
            assert(elig_lt(k, l[0]));
        }
    } else {
        let t = l.drop_first();
        assert forall|i: int| 0 <= i < t.len() implies (i < p - 1 <==> !elig_lt(
            k,
            #[trigger] t[i],
        )) by {
            assert(t[i] == l[i + 1]);
        }
        assert(!elig_lt(k, l[0]));
        lemma_later_than(t, k, p - 1);
        assert(t.skip(p - 1) =~= l.skip(p));
    }
}

/// The first `limit` places.
pub open spec fn first_of<T>(l: Seq<T>, limit: nat) -> Seq<T> {
    if limit < l.len() {
        l.take(limit as int)
    } else {
        l
    }
}

/// What a claim gets to see after `after` was handed out. The creation order has no place for an item
/// that has a priority, schedule or group: then it starts again.
pub open spec fn candidates_after(
    places: Set<EligV>,
    compact: bool,
    now: UtcTimestamp,
    after: EligV,
    max: nat,
) -> Seq<ItemId> {
    let l = listing_of::<EligKey>(places);
    if compact && !is_plain(after) {
        items_of(due_keys(l, now, max))
    } else {
        items_of(due_keys(later_than(l, after), now, max))
    }
}

/// The items in order after `after`, due or not. In creation order `after` stands by its creation.
pub open spec fn ordered_after(
    places: Set<EligV>,
    compact: bool,
    after: Option<EligV>,
    limit: nat,
) -> Seq<ItemId> {
    let l = listing_of::<EligKey>(places);
    match after {
        None => items_of(first_of(l, limit)),
        Some(k) => items_of(
            first_of(
                later_than(
                    l,
                    if compact {
                        plain_key(k.created_seq, k.item)
                    } else {
                        k
                    },
                ),
                limit,
            ),
        ),
    }
}

impl EligibilityIndex {
    /// The number of places that do not come after `key`, or, in creation order, after its creation.
    fn position_after(&self, key: &EligKey) -> (r: usize)
        ensures
            r <= listing_of::<EligKey>(self@).len(),
            later_than(
                listing_of::<EligKey>(self@),
                if self.compact() {
                    plain_key(key.created_seq, key.item)
                } else {
                    key.kv()
                },
            ) == listing_of::<EligKey>(self@).skip(r as int),
    {
        match self {
            EligibilityIndex::Compact(c) => {
                let n = c.len();
                let at = c.count_through(&(key.created_seq, key.item));
                proof {
                    lemma_plain_listing(c.listing());
                    let l = plain_list(c.listing());
                    let k = plain_key(key.created_seq, key.item);
                    assert forall|i: int| 0 <= i < l.len() implies (i < at <==> !elig_lt(
                        k,
                        #[trigger] l[i],
                    )) by {
                        let x = c.listing()[i];
                        assert(l[i] == plain_key(x.0, x.1));
                        assert(<(u64, u64)>::kless((key.created_seq, key.item), x) <==> elig_lt(
                            k,
                            l[i],
                        ));
                    }
                    lemma_later_than(l, k, at as int);
                }
                at
            },
            EligibilityIndex::Rich(rich) => {
                let n = rich.len();
                let at = rich.count_through(key);
                proof {
                    lemma_later_than(rich.listing(), key.kv(), at as int);
                }
                at
            },
        }
    }

    /// The first `max` due items after one that was handed out before.
    pub fn strict_candidates_after(
        &self,
        now: UtcTimestamp,
        after: &ItemRecord,
        model: &PriorityModel,
        max: usize,
    ) -> (r: Vec<ItemId>)
        ensures
            r@ == candidates_after(self@, self.compact(), now, key_of(after@, *model), max as nat),
    {
        let key = elig_key(after, model);
        let restart = match self {
            EligibilityIndex::Compact(_) => match (&after.priority, &after.not_before, &after.group_key) {
                (None, None, None) => false,
                _ => true,
            },
            EligibilityIndex::Rich(_) => false,
        };
        if restart {
            return self.strict_candidates(now, max);
        }
        let at = self.position_after(&key);
        self.due_from(at, now, max)
    }

    /// The first `limit` items after one, due or not.
    pub fn ordered_items_after(
        &self,
        after: Option<&ItemRecord>,
        model: &PriorityModel,
        limit: usize,
    ) -> (r: Vec<ItemId>)
        ensures
            r@ == ordered_after(
                self@,
                self.compact(),
                match after {
                    Some(rec) => Some(key_of(rec@, *model)),
                    None => None,
                },
                limit as nat,
            ),
    {
        let n = self.count();
        let from: usize = match after {
            Some(rec) => self.position_after(&elig_key(rec, model)),
            None => 0,
        };
        let ghost l = listing_of::<EligKey>(self@);
        let ghost rest = l.skip(from as int);
        assert(l.skip(0) =~= l);
        let mut out: Vec<ItemId> = Vec::new();
        let mut i: usize = from;
        while i < n && out.len() < limit
            invariant
                from <= i <= n,
                n == l.len(),
                l == listing_of::<EligKey>(self@),
                rest == l.skip(from as int),
                out@.len() == i - from,
                out@.len() <= limit,
                out@ == items_of(rest.take(i - from)),
            decreases n - i,
        {
            let item = self.entry_at(i).item;
            proof {
                let k = i - from;
                assert(rest.take(k + 1) =~= rest.take(k).push(rest[k]));
                assert(items_of(rest.take(k + 1)) =~= items_of(rest.take(k)).push(rest[k].item));
            }
            out.push(item);
            i = i + 1;
        }
        assert(rest.take(i - from) =~= first_of(rest, limit as nat));
        out
    }

    /// The first `limit` items in order, due or not.
    pub fn ordered_items(&self, limit: usize) -> (r: Vec<ItemId>)
        ensures
            r@ == items_of(first_of(listing_of::<EligKey>(self@), limit as nat)),
    {
        let model = PriorityModel {
            kind: PriorityModelKind::Int64,
            direction: PriorityDirection::Ascending,
        };
        self.ordered_items_after(None, &model, limit)
    }

    /// The place at a position of the order.
    fn entry_at(&self, i: usize) -> (r: EligKey)
        requires
            i < listing_of::<EligKey>(self@).len(),
        ensures
            r.kv() == listing_of::<EligKey>(self@)[i as int],
    {
        match self {
            EligibilityIndex::Compact(c) => {
                let n = c.len();
                proof {
                    lemma_plain_listing(c.listing());
                }
                let p = c.at(i);
                EligKey {
                    rank: EligRank::Unpriced,
                    created_seq: p.0,
                    item: p.1,
                    not_before: None,
                    group_key: None,
                }
            },
            EligibilityIndex::Rich(rich) => {
                let n = rich.len();
                rich.at(i).duplicate()
            },
        }
    }

    /// The first `max` due places.
    fn due_entries(&self, now: UtcTimestamp, max: usize) -> (r: Vec<EligKey>)
        ensures
            keys_v(r@) == due_keys(listing_of::<EligKey>(self@), now, max as nat),
    {
        let ghost l = listing_of::<EligKey>(self@);
        let mut out: Vec<EligKey> = Vec::new();
        let n = self.count();
        let mut i: usize = 0;
        assert(l.skip(0) =~= l);
        assert(keys_v(out@) + due_keys(l, now, max as nat) =~= due_keys(l, now, max as nat));
        while i < n && out.len() < max
            invariant
                i <= n,
                n == l.len(),
                l == listing_of::<EligKey>(self@),
                out@.len() <= max,
                keys_v(out@) + due_keys(l.skip(i as int), now, (max - out@.len()) as nat)
                    == due_keys(l, now, max as nat),
            decreases n - i,
        {
            let ghost rest = l.skip(i as int);
            assert(rest[0] == l[i as int]);
            assert(rest.drop_first() =~= l.skip(i as int + 1));
            let key = self.entry_at(i);
            if due_at(&key, now) {
                let ghost before = out@;
                out.push(key);
                proof {
                    let tail = due_keys(rest.drop_first(), now, (max - before.len() - 1) as nat);
                    assert(keys_v(out@) =~= keys_v(before).push(rest[0]));
                    assert(keys_v(before) + (seq![rest[0]] + tail) =~= keys_v(out@) + tail);
                }
            }
            i = i + 1;
        }
        proof {
            let d = due_keys(l.skip(i as int), now, (max - out@.len()) as nat);
            assert(d =~= Seq::<EligV>::empty());
            assert(keys_v(out@) + d =~= keys_v(out@));
        }
        out
    }

    /// The first `max` due items, each block of `bound + 1` of them put together by group.
    pub fn relaxed_candidates(&self, now: UtcTimestamp, max: usize, bound: u32) -> (r: Vec<ItemId>)
        ensures
            r@ == items_of(
                by_locality(
                    due_keys(listing_of::<EligKey>(self@), now, max as nat),
                    bound as nat + 1,
                ),
            ),
    {
        let entries = self.due_entries(now, max);
        let ghost l = keys_v(entries@);
        let block: u64 = bound as u64 + 1;
        let total = entries.len();
        let mut out: Vec<ItemId> = Vec::new();
        let mut from: usize = 0;
        assert(l.skip(0) =~= l);
        assert(out@ + items_of(by_locality(l, block as nat)) =~= items_of(
            by_locality(l, block as nat),
        ));
        while from < total
            invariant
                from <= total,
                total == entries@.len(),
                l == keys_v(entries@),
                block == bound as u64 + 1,
                out@ + items_of(by_locality(l.skip(from as int), block as nat)) == items_of(
                    by_locality(l, block as nat),
                ),
            decreases total - from,
        {
            let left: usize = total - from;
            let size: usize = if block <= left as u64 {
                block as usize
            } else {
                left
            };
            let ghost rest = l.skip(from as int);
            let mut set: OrdSet<LocalKey> = OrdSet::new();
            let mut j: usize = 0;
            assert(rest.take(0).to_set() =~= Set::<EligV>::empty());
            while j < size
                invariant
                    j <= size <= total - from,
                    from <= total,
                    total == entries@.len(),
                    l == keys_v(entries@),
                    rest == l.skip(from as int),
                    set@ == rest.take(j as int).to_set(),
                decreases size - j,
            {
                let entry = entries[from + j].duplicate();
                assert(entry.kv() == rest[j as int]);
                set.insert(LocalKey { key: entry });
                proof {
                    let a = rest.take(j as int);
                    let b = rest.take(j as int + 1);
                    assert(b =~= a.push(rest[j as int]));
                    assert(b.to_set() =~= a.to_set().insert(rest[j as int])) by {
                        assert forall|x: EligV| b.contains(x) == (a.contains(x) || x
                            == rest[j as int]) by {
                            if a.contains(x) {
                                let i = choose|i: int| 0 <= i < a.len() && a[i] == x;
                                assert(b[i] == x);
                            }
                            if b.contains(x) {
                                let i = choose|i: int| 0 <= i < b.len() && b[i] == x;
                                if i < j {
                                    assert(a[i] == x);
                                }
                            }
                            assert(b[j as int] == rest[j as int]);
                        }
                    }
                }
                j = j + 1;
            }
            let count = set.len();
            let ghost q = set.listing();
            let ghost start = out@;
            let mut i: usize = 0;
            assert(items_of(q.take(0)) =~= Seq::<ItemId>::empty());
            assert(start + items_of(q.take(0)) =~= start);
            while i < count
                invariant
                    i <= count,
                    count == set.listing().len(),
                    q == set.listing(),
                    out@ == start + items_of(q.take(i as int)),
                decreases count - i,
            {
                let item = set.at(i).key.item;
                proof {
                    assert(q.take(i as int + 1) =~= q.take(i as int).push(q[i as int]));
                    assert(items_of(q.take(i as int + 1)) =~= items_of(q.take(i as int)).push(
                        q[i as int].item,
                    ));
                }
                let ghost before = out@;
                out.push(item);
                assert(before.push(item) =~= start + items_of(q.take(i as int + 1)));
                i = i + 1;
            }
            proof {
                assert(q.take(count as int) =~= q);
                let tail = by_locality(rest.skip(size as int), block as nat);
                assert(rest.skip(size as int) =~= l.skip(from as int + size as int));
                assert(by_locality(rest, block as nat) == q + tail);
                assert(items_of(q + tail) =~= items_of(q) + items_of(tail));
                assert(start + (items_of(q) + items_of(tail)) =~= out@ + items_of(tail));
            }
            from = from + size;
        }
        proof {
            let d = l.skip(from as int);
            assert(by_locality(d, block as nat) =~= Seq::<EligV>::empty());
            assert(items_of(by_locality(d, block as nat)) =~= Seq::<ItemId>::empty());
            assert(out@ + items_of(by_locality(d, block as nat)) =~= out@);
        }
        out
    }
}

pub open spec fn keys_v(s: Seq<EligKey>) -> Seq<EligV> {
    s.map_values(|k: EligKey| k.kv())
}

/// Keeping groups together moves no item further than the block: the list keeps its length, and what
/// stands at a position stood less than `block` positions away.
pub proof fn law_rank_error_is_bounded(l: Seq<EligV>, block: nat, i: int)
    requires
        l.no_duplicates(),
        block > 0,
        0 <= i < l.len(),
    ensures
        by_locality(l, block).len() == l.len(),
        exists|j: int|
            0 <= j < l.len() && l[j] == #[trigger] by_locality(l, block)[i] && j - i < block && i - j
                < block,
    decreases l.len(),
{
    let n = if block <= l.len() {
        block as int
    } else {
        l.len() as int
    };
    let head = l.take(n);
    let tail = l.skip(n);
    assert(head.no_duplicates());
    assert(tail.no_duplicates());
    head.unique_seq_to_set();
    vstd::seq_lib::seq_to_set_is_finite(head);
    lemma_listing_exists::<LocalKey>(head.to_set());
    let q = listing_of::<LocalKey>(head.to_set());
    assert(by_locality(l, block) == q + by_locality(tail, block));
    if tail.len() > 0 {
        law_rank_error_is_bounded(tail, block, if i >= n { i - n } else { 0 });
    }
    if i < n {
        assert(q.to_set().contains(q[i]));
        let j = choose|j: int| 0 <= j < head.len() && head[j] == q[i];
        assert(l[j] == by_locality(l, block)[i]);
    } else {
        let k = choose|k: int|
            0 <= k < tail.len() && tail[k] == by_locality(tail, block)[i - n] && k - (i - n) < block
                && (i - n) - k < block;
        assert(l[k + n] == by_locality(l, block)[i]);
    }
}

/// Keeping groups together neither loses an item nor brings one in.
pub proof fn law_relaxed_order_keeps_the_selection(l: Seq<EligV>, block: nat)
    requires
        l.no_duplicates(),
        block > 0,
    ensures
        by_locality(l, block).to_set() == l.to_set(),
        by_locality(l, block).no_duplicates(),
    decreases l.len(),
{
    if l.len() > 0 {
        let n = if block <= l.len() {
            block as int
        } else {
            l.len() as int
        };
        let head = l.take(n);
        let tail = l.skip(n);
        assert(head.no_duplicates());
        assert(tail.no_duplicates());
        vstd::seq_lib::seq_to_set_is_finite(head);
        lemma_listing_exists::<LocalKey>(head.to_set());
        let q = listing_of::<LocalKey>(head.to_set());
        lemma_ascending_distinct::<LocalKey>(q);
        law_relaxed_order_keeps_the_selection(tail, block);
        let t = by_locality(tail, block);
        let r = by_locality(l, block);
        assert(r == q + t);
        assert forall|x: EligV| r.contains(x) == l.contains(x) by {
            if r.contains(x) {
                let i = choose|i: int| 0 <= i < r.len() && r[i] == x;
                if i < q.len() {
                    assert(q.to_set().contains(q[i]));
                    let j = choose|j: int| 0 <= j < head.len() && head[j] == x;
                    assert(l[j] == x);
                } else {
                    assert(t.to_set().contains(t[i - q.len()]));
                    let j = choose|j: int| 0 <= j < tail.len() && tail[j] == x;
                    assert(l[j + n] == x);
                }
            }
            if l.contains(x) {
                let j = choose|j: int| 0 <= j < l.len() && l[j] == x;
                if j < n {
                    assert(head[j] == x);
                    assert(q.to_set().contains(x));
                    let i = choose|i: int| 0 <= i < q.len() && q[i] == x;
                    assert(r[i] == x);
                } else {
                    assert(tail[j - n] == x);
                    assert(t.to_set().contains(x));
                    let i = choose|i: int| 0 <= i < t.len() && t[i] == x;
                    assert(r[i + q.len()] == x);
                }
            }
        }
        assert(r.to_set() =~= l.to_set());
        assert forall|i: int, j: int|
            0 <= i < r.len() && 0 <= j < r.len() && i != j implies r[i] != r[j] by {
            if i < q.len() && j >= q.len() {
                lemma_blocks_apart(l, head, tail, q, t, n, i, j - q.len());
            }
            if j < q.len() && i >= q.len() {
                lemma_blocks_apart(l, head, tail, q, t, n, j, i - q.len());
            }
        }
    }
}

proof fn lemma_blocks_apart(
    l: Seq<EligV>,
    head: Seq<EligV>,
    tail: Seq<EligV>,
    q: Seq<EligV>,
    t: Seq<EligV>,
    n: int,
    i: int,
    j: int,
)
    requires
        l.no_duplicates(),
        0 <= n <= l.len(),
        head == l.take(n),
        tail == l.skip(n),
        q.to_set() == head.to_set(),
        t.to_set() == tail.to_set(),
        0 <= i < q.len(),
        0 <= j < t.len(),
    ensures
        q[i] != t[j],
{
    assert(q.to_set().contains(q[i]));
    assert(t.to_set().contains(t[j]));
    let a = choose|a: int| 0 <= a < head.len() && head[a] == q[i];
    let b = choose|b: int| 0 <= b < tail.len() && tail[b] == t[j];
    assert(l[a] == q[i]);
    assert(l[b + n] == t[j]);
}

/// A block of one is the strict order.
pub proof fn law_zero_bound_is_strict(l: Seq<EligV>)
    ensures
        by_locality(l, 1) == l,
    decreases l.len(),
{
    if l.len() > 0 {
        let head = l.take(1);
        assert(head.no_duplicates());
        assert(ascending::<LocalKey>(head));
        lemma_listing_of::<LocalKey>(head);
        law_zero_bound_is_strict(l.skip(1));
        assert(by_locality(l, 1) =~= l);
    } else {
        assert(by_locality(l, 1) =~= l);
    }
}

/// Priced work comes before unpriced work.
pub proof fn law_priced_before_unpriced(a: Item, b: Item, model: PriorityModel)
    requires
        a.priority is Some,
        b.priority is None,
    ensures
        elig_lt(key_of(a, model), key_of(b, model)),
{
}

/// Under one rank, earlier work comes first.
pub proof fn law_ties_go_by_creation(a: Item, b: Item, model: PriorityModel)
    requires
        a.priority == b.priority,
        a.created_seq < b.created_seq,
    ensures
        elig_lt(key_of(a, model), key_of(b, model)),
{
}

proof fn lemma_turned(x: Seq<u8>, y: Seq<u8>)
    requires
        x.len() == y.len(),
    ensures
        bytes_lt(turned(x), turned(y)) <==> bytes_lt(y, x),
    decreases x.len(),
{
    if x.len() > 0 {
        assert(turned(x).drop_first() =~= turned(x.drop_first()));
        assert(turned(y).drop_first() =~= turned(y.drop_first()));
        lemma_turned(x.drop_first(), y.drop_first());
    }
}

/// Integer priorities are handed out in their order, or in the reverse one where the queue ranks
/// downwards.
pub proof fn law_integer_priorities_sort_by_value(a: i64, b: i64, model: PriorityModel)
    ensures
        bytes_lt(
            sort_bytes(PriorityV::Int64(a), model),
            sort_bytes(PriorityV::Int64(b), model),
        ) <==> (if model.direction is Ascending {
            a < b
        } else {
            b < a
        }),
{
    reveal_with_fuel(pow256, 9);
    lemma_be_order(sign_lifted(a as int), sign_lifted(b as int), 8);
    lemma_be_order(sign_lifted(b as int), sign_lifted(a as int), 8);
    lemma_be_bytes_len(sign_lifted(a as int), 8);
    lemma_be_bytes_len(sign_lifted(b as int), 8);
    lemma_turned(be_bytes(sign_lifted(a as int), 8), be_bytes(sign_lifted(b as int), 8));
}

/// The places after one is taken out.
pub open spec fn removed_place(places: Set<EligV>, compact: bool, k: EligV) -> Set<EligV> {
    if compact {
        places.remove(plain_key(k.created_seq, k.item))
    } else {
        places.remove(k)
    }
}

} // verus!
