//! Which items a claim takes: single ones, whole groups, one group, or a whole cohort.

use crate::eligibility::{EligKey, EligV, by_locality, due_keys, first_of};
use crate::item::{Item, ItemRecord};
use crate::json::{JsonV, same_json};
use crate::model::Model;
use crate::order::{OrdSet, OrderKey, lemma_listing_exists, listing_of};
use crate::predicate::covers_metadata;
use crate::projection::ProjectionData;
use crate::reads::{candidates, rank_bound};
use crate::text::{numeral, opt_text, push_u64, same_text, texts};
use crate::types::{EngineError, EngineResult, ErrorV, ItemId, ItemState, Metadata, UtcTimestamp, metadata_of};
use vstd::prelude::*;
use vstd::string::*;

verus! {

/// What the items of a claim have in common.
pub struct ClaimCompatibility {
    pub group_key: Option<String>,
    /// Metadata that each item must hold.
    pub metadata_equals: Metadata,
    /// The number of groups in a claim of whole groups.
    pub max_groups: Option<u32>,
}

pub ghost struct CompatibilityV {
    pub group_key: Option<Seq<char>>,
    pub metadata_equals: Map<Seq<char>, JsonV>,
    pub max_groups: Option<u32>,
}

impl ClaimCompatibility {
    pub open spec fn view(&self) -> CompatibilityV {
        CompatibilityV {
            group_key: opt_text(self.group_key),
            metadata_equals: metadata_of(self.metadata_equals),
            max_groups: self.max_groups,
        }
    }
}

/// What a claim takes at once.
#[derive(Clone, Copy, PartialEq, Eq, Structural, Debug)]
pub enum ClaimUnit {
    Item,
    WholeGroup,
    SameGroupKey,
    WholeCohort,
}

/// The items of a claim, and the cohort that they make up.
#[derive(Debug)]
pub struct RichClaimSelection {
    pub item_ids: Vec<ItemId>,
    pub cohort_id: Option<String>,
}

pub ghost struct SelectionV {
    pub item_ids: Seq<ItemId>,
    pub cohort_id: Option<Seq<char>>,
}

impl RichClaimSelection {
    pub open spec fn view(&self) -> SelectionV {
        SelectionV { item_ids: self.item_ids@, cohort_id: opt_text(self.cohort_id) }
    }

    /// No items.
    pub fn none() -> (r: RichClaimSelection)
        ensures
            r@ == no_selection(),
    {
        RichClaimSelection { item_ids: Vec::new(), cohort_id: None }
    }
}

pub open spec fn no_selection() -> SelectionV {
    SelectionV { item_ids: Seq::empty(), cohort_id: None }
}

pub open spec fn selection_outcome(r: EngineResult<RichClaimSelection>) -> Result<
    SelectionV,
    ErrorV,
> {
    match r {
        Ok(s) => Ok(s@),
        Err(e) => Err(e@),
    }
}

pub open spec fn ids_outcome(r: EngineResult<Vec<ItemId>>) -> Result<Seq<ItemId>, ErrorV> {
    match r {
        Ok(s) => Ok(s@),
        Err(e) => Err(e@),
    }
}

/// An item holds all the metadata that is asked for.
pub open spec fn metadata_meets(i: Item, required: Map<Seq<char>, JsonV>) -> bool {
    forall|k: Seq<char>| #[trigger]
        required.contains_key(k) ==> i.metadata.contains_key(k) && same_json(
            i.metadata[k],
            required[k],
        )
}

/// The identifiers, in order, of items that pass a test.
pub open spec fn kept(
    items: Map<ItemId, Item>,
    ids: Seq<ItemId>,
    f: spec_fn(Item) -> bool,
) -> Seq<ItemId>
    decreases ids.len(),
{
    if ids.len() == 0 {
        Seq::empty()
    } else {
        let before = kept(items, ids.drop_last(), f);
        if items.contains_key(ids.last()) && f(items[ids.last()]) {
            before.push(ids.last())
        } else {
            before
        }
    }
}

/// Every item that may be claimed now.
pub open spec fn all_candidates(m: Model, now: UtcTimestamp) -> Seq<ItemId> {
    candidates(m, now, usize::MAX as nat)
}

/// An item outside of cohorts, with the metadata and in the group that is asked for.
pub open spec fn matching(
    group: Option<Seq<char>>,
    grouped: bool,
    required: Map<Seq<char>, JsonV>,
) -> spec_fn(Item) -> bool {
    |i: Item|
        {
            &&& i.cohort_size is None
            &&& (grouped ==> i.group_key is Some)
            &&& (group is Some ==> i.group_key == group)
            &&& metadata_meets(i, required)
        }
}

/// The items of a claim of single items.
pub open spec fn item_claim(
    m: Model,
    c: CompatibilityV,
    now: UtcTimestamp,
    max: nat,
) -> Seq<ItemId> {
    if max == 0 {
        Seq::empty()
    } else if c.group_key is None && c.metadata_equals.dom() == Set::<Seq<char>>::empty() {
        candidates(m, now, max)
    } else {
        first_of(
            kept(m.items, all_candidates(m, now), matching(c.group_key, false, c.metadata_equals)),
            max,
        )
    }
}

/// A claim that asks for no group and no metadata takes what is offered.
pub proof fn law_plain_claim_takes_what_is_offered(
    m: Model,
    c: CompatibilityV,
    now: UtcTimestamp,
    max: nat,
)
    requires
        c.group_key is None,
        c.metadata_equals.dom() == Set::<Seq<char>>::empty(),
    ensures
        item_claim(m, c, now, max) == candidates(m, now, max),
{
    if max == 0 {
        let d = due_keys(listing_of::<EligKey>(m.eligible), now, 0);
        assert(d =~= Seq::<EligV>::empty());
        assert(by_locality(d, rank_bound(m) as nat + 1) =~= Seq::<EligV>::empty());
        assert(candidates(m, now, 0) =~= Seq::<ItemId>::empty());
    }
}

/// The items of a claim within one group: the group of the first item that matches. A claim of at
/// most no items is not limited.
pub open spec fn same_group(
    m: Model,
    c: CompatibilityV,
    now: UtcTimestamp,
    max: nat,
) -> Seq<ItemId> {
    let all = all_candidates(m, now);
    let open = kept(m.items, all, matching(c.group_key, true, c.metadata_equals));
    if open.len() == 0 {
        Seq::empty()
    } else {
        let members = kept(
            m.items,
            all,
            matching(m.items[open[0]].group_key, true, c.metadata_equals),
        );
        if max == 0 {
            members
        } else {
            first_of(members, max)
        }
    }
}

/// A group of which an item is leased on its own.
pub open spec fn group_leased(items: Map<ItemId, Item>, group: Seq<char>) -> bool {
    exists|id: ItemId|
        {
            &&& #[trigger] items.contains_key(id)
            &&& items[id].group_key == Some(group)
            &&& items[id].cohort_size is None
            &&& !items[id].superseded
            &&& items[id].state is Leased
        }
}

/// An item of a group that a claim of whole groups may take.
pub open spec fn batchable(
    items: Map<ItemId, Item>,
    required: Map<Seq<char>, JsonV>,
) -> spec_fn(Item) -> bool {
    |i: Item|
        {
            &&& matching(None, true, required)(i)
            &&& !group_leased(items, i.group_key->Some_0)
        }
}

/// The groups of items that pass a test, by their first item.
pub open spec fn groups_seen(
    items: Map<ItemId, Item>,
    ids: Seq<ItemId>,
    f: spec_fn(Item) -> bool,
) -> Seq<Seq<char>>
    decreases ids.len(),
{
    if ids.len() == 0 {
        Seq::empty()
    } else {
        let before = groups_seen(items, ids.drop_last(), f);
        if items.contains_key(ids.last()) && f(items[ids.last()]) {
            let g = items[ids.last()].group_key->Some_0;
            if before.contains(g) {
                before
            } else {
                before.push(g)
            }
        } else {
            before
        }
    }
}

/// Whole groups, one after the other, until one does not fit any more. A group that alone is too
/// large fails.
pub open spec fn groups_taken(
    taken: Seq<ItemId>,
    groups: Seq<Seq<ItemId>>,
    max: nat,
) -> Result<Seq<ItemId>, ErrorV>
    decreases groups.len(),
{
    if groups.len() == 0 {
        Ok(taken)
    } else if groups[0].len() > max {
        Err(ErrorV::BatchTooLarge)
    } else if taken.len() + groups[0].len() > max {
        Ok(taken)
    } else {
        groups_taken(taken + groups[0], groups.drop_first(), max)
    }
}

/// The items of some groups.
pub open spec fn members_of(
    m: Model,
    now: UtcTimestamp,
    required: Map<Seq<char>, JsonV>,
    groups: Seq<Seq<char>>,
) -> Seq<Seq<ItemId>> {
    groups.map_values(
        |g: Seq<char>|
            kept(m.items, all_candidates(m, now), matching(Some(g), true, required)),
    )
}

/// The items of a claim of whole groups.
pub open spec fn group_batching(
    m: Model,
    c: CompatibilityV,
    now: UtcTimestamp,
    max: nat,
) -> Result<Seq<ItemId>, ErrorV> {
    let limit = match c.max_groups {
        Some(n) => n as nat,
        None => 0,
    };
    if limit == 0 || max == 0 {
        Ok(Seq::empty())
    } else {
        let names = groups_seen(
            m.items,
            all_candidates(m, now),
            batchable(m.items, c.metadata_equals),
        );
        groups_taken(
            Seq::empty(),
            members_of(m, now, c.metadata_equals, first_of(names, limit)),
            max,
        )
    }
}

/// A live item of a cohort.
pub open spec fn cohort_member(group: Seq<char>) -> spec_fn(Item) -> bool {
    |i: Item|
        {
            &&& !i.superseded
            &&& !i.state.terminal()
            &&& i.cohort_size is Some
            &&& i.group_key == Some(group)
        }
}

/// The items of a cohort by creation.
pub open spec fn cohort_pairs(items: Map<ItemId, Item>, group: Seq<char>) -> Set<(u64, u64)> {
    Set::new(
        |p: (u64, u64)|
            {
                &&& items.contains_key(p.1)
                &&& cohort_member(group)(items[p.1])
                &&& items[p.1].created_seq == p.0
            },
    )
}

pub open spec fn cohort_list(items: Map<ItemId, Item>, group: Seq<char>) -> Seq<(u64, u64)> {
    listing_of::<(u64, u64)>(cohort_pairs(items, group))
}

/// All members of a cohort are there, agree on its size, and may be claimed.
pub open spec fn cohort_complete(
    items: Map<ItemId, Item>,
    group: Seq<char>,
    required: Map<Seq<char>, JsonV>,
    open: Seq<ItemId>,
) -> bool {
    let l = cohort_list(items, group);
    &&& l.len() > 0
    &&& items[l[0].1].cohort_size == Some(l.len() as u64)
    &&& l.len() <= u64::MAX
    &&& forall|k: int|
        0 <= k < l.len() ==> {
            &&& items[(#[trigger] l[k]).1].cohort_size == items[l[0].1].cohort_size
            &&& open.contains(l[k].1)
            &&& metadata_meets(items[l[k].1], required)
        }
}

/// The complete cohorts, each with its first member's creation.
pub open spec fn complete_cohorts(
    items: Map<ItemId, Item>,
    required: Map<Seq<char>, JsonV>,
    open: Seq<ItemId>,
) -> Set<(u64, Seq<char>)> {
    Set::new(
        |p: (u64, Seq<char>)|
            {
                &&& cohort_complete(items, p.1, required, open)
                &&& cohort_list(items, p.1)[0].0 == p.0
            },
    )
}

/// The name of a cohort.
pub open spec fn cohort_name(group: Seq<char>, seq: u64) -> Seq<char> {
    "coh:"@ + group + ":"@ + numeral(seq as nat)
}

/// The items of a claim of a whole cohort: the complete cohort that was begun first.
pub open spec fn whole_cohort(
    m: Model,
    c: CompatibilityV,
    now: UtcTimestamp,
    max: nat,
) -> Result<SelectionV, ErrorV> {
    let open = all_candidates(m, now);
    let ready = listing_of::<(u64, String)>(
        complete_cohorts(m.items, c.metadata_equals, open),
    );
    if ready.len() == 0 {
        Ok(no_selection())
    } else {
        let (seq, group) = ready[0];
        if cohort_list(m.items, group).len() > max {
            Err(ErrorV::BatchTooLarge)
        } else {
            Ok(
                SelectionV {
                    item_ids: kept(m.items, open, cohort_member(group)),
                    cohort_id: Some(cohort_name(group, seq)),
                },
            )
        }
    }
}

/// The items of a claim of more than single items.
pub open spec fn rich_claim(
    m: Model,
    unit: ClaimUnit,
    c: CompatibilityV,
    now: UtcTimestamp,
    max: nat,
) -> Result<SelectionV, ErrorV> {
    match unit {
        ClaimUnit::Item => Err(ErrorV::Unavailable),
        ClaimUnit::WholeGroup => match group_batching(m, c, now, max) {
            Ok(ids) => Ok(SelectionV { item_ids: ids, cohort_id: None }),
            Err(e) => Err(e),
        },
        ClaimUnit::SameGroupKey => Ok(
            SelectionV { item_ids: same_group(m, c, now, max), cohort_id: None },
        ),
        ClaimUnit::WholeCohort => whole_cohort(m, c, now, max),
    }
}

/// What is kept of the first identifiers comes first.
proof fn lemma_kept_prefix(
    items: Map<ItemId, Item>,
    ids: Seq<ItemId>,
    f: spec_fn(Item) -> bool,
    k: int,
)
    requires
        0 <= k <= ids.len(),
    ensures
        kept(items, ids.take(k), f).len() <= kept(items, ids, f).len(),
        kept(items, ids.take(k), f) == kept(items, ids, f).take(
            kept(items, ids.take(k), f).len() as int,
        ),
        kept(items, ids, f).len() <= ids.len(),
    decreases ids.len(),
{
    if k == ids.len() {
        assert(ids.take(k) =~= ids);
        assert(kept(items, ids, f) =~= kept(items, ids, f).take(
            kept(items, ids, f).len() as int,
        ));
        if ids.len() > 0 {
            lemma_kept_prefix(items, ids.drop_last(), f, k - 1);
        }
    } else {
        lemma_kept_prefix(items, ids.drop_last(), f, k);
        assert(ids.drop_last().take(k) =~= ids.take(k));
        let p = kept(items, ids.take(k), f);
        assert(p =~= kept(items, ids, f).take(p.len() as int));
    }
}

/// What is kept was among the identifiers, stands for an item and passes.
pub proof fn lemma_kept_holds(
    items: Map<ItemId, Item>,
    ids: Seq<ItemId>,
    f: spec_fn(Item) -> bool,
    k: int,
)
    requires
        0 <= k < kept(items, ids, f).len(),
    ensures
        ids.contains(kept(items, ids, f)[k]),
        items.contains_key(kept(items, ids, f)[k]),
        f(items[kept(items, ids, f)[k]]),
    decreases ids.len(),
{
    if ids.len() > 0 {
        let before = kept(items, ids.drop_last(), f);
        if k < before.len() {
            lemma_kept_holds(items, ids.drop_last(), f, k);
            let j = choose|j: int|
                0 <= j < ids.drop_last().len() && ids.drop_last()[j] == before[k];
            assert(ids[j] == before[k]);
        } else {
            assert(ids[ids.len() - 1] == ids.last());
        }
    }
}

fn same_opt(a: &Option<String>, b: &Option<String>) -> (r: bool)
    ensures
        r == (opt_text(*a) == opt_text(*b)),
{
    match (a, b) {
        (Some(x), Some(y)) => same_text(x.as_str(), y.as_str()),
        (None, None) => true,
        _ => false,
    }
}

fn among(ids: &Vec<ItemId>, id: ItemId) -> (r: bool)
    ensures
        r == ids@.contains(id),
{
    let mut i: usize = 0;
    while i < ids.len()
        invariant
            i <= ids@.len(),
            forall|j: int| 0 <= j < i ==> ids@[j] != id,
        decreases ids@.len() - i,
    {
        if ids[i] == id {
            return true;
        }
        i = i + 1;
    }
    false
}

fn named_among(names: &Vec<String>, name: &String) -> (r: bool)
    ensures
        r == texts(names@).contains(name@),
{
    let mut i: usize = 0;
    while i < names.len()
        invariant
            i <= names@.len(),
            forall|j: int| 0 <= j < i ==> texts(names@)[j] != name@,
        decreases names@.len() - i,
    {
        assert(texts(names@)[i as int] == names@[i as int]@);
        if same_text(names[i].as_str(), name.as_str()) {
            return true;
        }
        i = i + 1;
    }
    false
}

impl ItemRecord {
    /// Whether the item holds all the metadata that is asked for.
    pub fn metadata_matches(&self, required: &Metadata) -> (r: bool)
        ensures
            r == metadata_meets(self@, metadata_of(*required)),
    {
        covers_metadata(&self.metadata, required)
    }

    fn matches_claim(&self, group: &Option<String>, grouped: bool, required: &Metadata) -> (r: bool)
        ensures
            r == matching(opt_text(*group), grouped, metadata_of(*required))(self@),
    {
        if self.cohort_size.is_some() || (grouped && self.group_key.is_none()) {
            return false;
        }
        if group.is_some() && !same_opt(&self.group_key, group) {
            return false;
        }
        self.metadata_matches(required)
    }

    fn in_cohort(&self, group: &String) -> (r: bool)
        ensures
            r == cohort_member(group@)(self@),
    {
        if self.superseded || self.state.is_terminal() || self.cohort_size.is_none() {
            return false;
        }
        match &self.group_key {
            Some(g) => same_text(g.as_str(), group.as_str()),
            None => false,
        }
    }
}

impl ProjectionData {
    /// The items among some that match a claim, up to a limit.
    fn claimable(
        &self,
        ids: &Vec<ItemId>,
        group: &Option<String>,
        grouped: bool,
        required: &Metadata,
        limit: usize,
    ) -> (r: Vec<ItemId>)
        ensures
            r@ == first_of(
                kept(
                    self@.items,
                    ids@,
                    matching(opt_text(*group), grouped, metadata_of(*required)),
                ),
                limit as nat,
            ),
            limit == usize::MAX ==> r@ == kept(
                self@.items,
                ids@,
                matching(opt_text(*group), grouped, metadata_of(*required)),
            ),
    {
        let ghost f = matching(opt_text(*group), grouped, metadata_of(*required));
        let ghost all = kept(self@.items, ids@, f);
        let mut out: Vec<ItemId> = Vec::new();
        let mut i: usize = 0;
        assert(ids@.take(0) =~= Seq::<ItemId>::empty());
        while i < ids.len() && out.len() < limit
            invariant
                i <= ids@.len(),
                out@.len() <= limit,
                out@ == kept(self@.items, ids@.take(i as int), f),
                f == matching(opt_text(*group), grouped, metadata_of(*required)),
            decreases ids@.len() - i,
        {
            proof {
                assert(ids@.take(i as int + 1).drop_last() =~= ids@.take(i as int));
                assert(ids@.take(i as int + 1).last() == ids@[i as int]);
            }
            match self.record(ids[i]) {
                Some(rec) => {
                    if rec.matches_claim(group, grouped, required) {
                        out.push(ids[i]);
                    }
                },
                None => {},
            }
            i = i + 1;
        }
        proof {
            lemma_kept_prefix(self@.items, ids@, f, i as int);
            if i == ids@.len() {
                assert(ids@.take(i as int) =~= ids@);
            }
            assert(out@ =~= first_of(all, limit as nat));
        }
        out
    }

    /// Selects single items to claim.
    pub fn select_item_claim(
        &self,
        compatibility: &ClaimCompatibility,
        now: UtcTimestamp,
        max_items: usize,
    ) -> (r: Vec<ItemId>)
        ensures
            r@ == item_claim(self@, compatibility@, now, max_items as nat),
    {
        if max_items == 0 {
            return Vec::new();
        }
        let n = compatibility.metadata_equals.len();
        proof {
            let d = compatibility@.metadata_equals.dom();
            assert(d =~= compatibility.metadata_equals@.dom());
            if n == 0 {
                assert(d =~= Set::<Seq<char>>::empty());
            } else {
                assert(d.contains(compatibility.metadata_equals.listing()[0]));
            }
        }
        if compatibility.group_key.is_none() && n == 0 {
            return self.eligible_candidates(now, max_items);
        }
        let ids = self.eligible_candidates(now, usize::MAX);
        self.claimable(
            &ids,
            &compatibility.group_key,
            false,
            &compatibility.metadata_equals,
            max_items,
        )
    }

    /// Selects items of one group to claim.
    pub fn select_same_group(
        &self,
        compatibility: &ClaimCompatibility,
        now: UtcTimestamp,
        max_items: usize,
    ) -> (r: Vec<ItemId>)
        ensures
            r@ == same_group(self@, compatibility@, now, max_items as nat),
    {
        let ids = self.eligible_candidates(now, usize::MAX);
        let first = self.claimable(
            &ids,
            &compatibility.group_key,
            true,
            &compatibility.metadata_equals,
            1,
        );
        let ghost f = matching(
            compatibility@.group_key,
            true,
            compatibility@.metadata_equals,
        );
        let ghost open = kept(self@.items, ids@, f);
        if first.len() == 0 {
            return first;
        }
        proof {
            lemma_kept_holds(self@.items, ids@, f, 0);
        }
        match self.record(first[0]) {
            Some(rec) => {
                let limit = if max_items == 0 {
                    usize::MAX
                } else {
                    max_items
                };
                self.claimable(
                    &ids,
                    &rec.group_key,
                    true,
                    &compatibility.metadata_equals,
                    limit,
                )
            },
            None => Vec::new(),
        }
    }

    fn is_group_leased(&self, ids: &Vec<ItemId>, group: &String) -> (r: bool)
        requires
            ids@.to_set() == self@.items.dom(),
        ensures
            r == group_leased(self@.items, group@),
    {
        let mut i: usize = 0;
        while i < ids.len()
            invariant
                i <= ids@.len(),
                ids@.to_set() == self@.items.dom(),
                forall|j: int|
                    0 <= j < i ==> {
                        let x = self@.items[#[trigger] ids@[j]];
                        !(x.group_key == Some(group@) && x.cohort_size is None && !x.superseded
                            && x.state is Leased)
                    },
            decreases ids@.len() - i,
        {
            assert(ids@.to_set().contains(ids@[i as int]));
            match self.record(ids[i]) {
                Some(rec) => {
                    let leased = match rec.state {
                        ItemState::Leased => true,
                        _ => false,
                    };
                    let in_group = match &rec.group_key {
                        Some(g) => same_text(g.as_str(), group.as_str()),
                        None => false,
                    };
                    if leased && in_group && rec.cohort_size.is_none() && !rec.superseded {
                        assert(self@.items.contains_key(ids@[i as int]));
                        return true;
                    }
                },
                None => {},
            }
            i = i + 1;
        }
        proof {
            assert forall|id: ItemId| #[trigger] self@.items.contains_key(id) implies !({
                &&& self@.items[id].group_key == Some(group@)
                &&& self@.items[id].cohort_size is None
                &&& !self@.items[id].superseded
                &&& self@.items[id].state is Leased
            }) by {
                assert(ids@.to_set().contains(id));
                let j = choose|j: int| 0 <= j < ids@.len() && ids@[j] == id;
                let x = self@.items[ids@[j]];
            }
        }
        false
    }

    /// The groups that a claim of whole groups may take, in order.
    fn open_groups(&self, ids: &Vec<ItemId>, required: &Metadata) -> (r: Vec<String>)
        ensures
            texts(r@) == groups_seen(
                self@.items,
                ids@,
                batchable(self@.items, metadata_of(*required)),
            ),
    {
        let everything = self.all_ids();
        let none: Option<String> = None;
        let ghost f = batchable(self@.items, metadata_of(*required));
        let mut names: Vec<String> = Vec::new();
        let mut i: usize = 0;
        assert(ids@.take(0) =~= Seq::<ItemId>::empty());
        assert(texts(names@) =~= Seq::<Seq<char>>::empty());
        while i < ids.len()
            invariant
                i <= ids@.len(),
                everything@.to_set() == self@.items.dom(),
                opt_text(none) == None::<Seq<char>>,
                f == batchable(self@.items, metadata_of(*required)),
                texts(names@) == groups_seen(self@.items, ids@.take(i as int), f),
            decreases ids@.len() - i,
        {
            proof {
                assert(ids@.take(i as int + 1).drop_last() =~= ids@.take(i as int));
                assert(ids@.take(i as int + 1).last() == ids@[i as int]);
            }
            match self.record(ids[i]) {
                Some(rec) => {
                    if rec.matches_claim(&none, true, required) {
                        match &rec.group_key {
                            Some(g) => {
                                if !self.is_group_leased(&everything, g) && !named_among(
                                    &names,
                                    g,
                                ) {
                                    let ghost before = names@;
                                    names.push(g.clone());
                                    assert(texts(names@) =~= texts(before).push(g@));
                                }
                            },
                            None => {},
                        }
                    }
                },
                None => {},
            }
            i = i + 1;
        }
        assert(ids@.take(i as int) =~= ids@);
        names
    }

    /// Selects whole groups to claim.
    pub fn select_group_batching(
        &self,
        compatibility: &ClaimCompatibility,
        now: UtcTimestamp,
        max_items: usize,
    ) -> (r: EngineResult<Vec<ItemId>>)
        ensures
            ids_outcome(r) == group_batching(self@, compatibility@, now, max_items as nat),
    {
        let max_groups = match compatibility.max_groups {
            Some(n) => n,
            None => 0,
        };
        if max_groups == 0 || max_items == 0 {
            return Ok(Vec::new());
        }
        let required = &compatibility.metadata_equals;
        let ids = self.eligible_candidates(now, usize::MAX);
        let names = self.open_groups(&ids, required);
        let count = if (max_groups as u64) < names.len() as u64 {
            max_groups as usize
        } else {
            names.len()
        };
        let ghost chosen = first_of(texts(names@), max_groups as nat);
        let ghost lists = members_of(self@, now, metadata_of(*required), chosen);
        let ghost whole = group_batching(self@, compatibility@, now, max_items as nat);
        let mut selected: Vec<ItemId> = Vec::new();
        let mut i: usize = 0;
        assert(lists.skip(0) =~= lists);
        while i < count
            invariant
                whole == group_batching(self@, compatibility@, now, max_items as nat),
                whole == groups_taken(Seq::empty(), lists, max_items as nat),
                i <= count,
                count <= names@.len(),
                count == lists.len(),
                chosen == first_of(texts(names@), max_groups as nat),
                chosen.len() == count,
                lists == members_of(self@, now, metadata_of(*required), chosen),
                ids@ == all_candidates(self@, now),
                selected@.len() <= max_items,
                groups_taken(Seq::empty(), lists, max_items as nat) == groups_taken(
                    selected@,
                    lists.skip(i as int),
                    max_items as nat,
                ),
            decreases count - i,
        {
            let group = Some(names[i].clone());
            let mut members = self.claimable(&ids, &group, true, required, usize::MAX);
            proof {
                assert(texts(names@)[i as int] == names@[i as int]@);
                assert(chosen[i as int] == names@[i as int]@);
                assert(lists.skip(i as int)[0] == members@);
                assert(lists.skip(i as int).drop_first() =~= lists.skip(i as int + 1));
            }
            if members.len() > max_items {
                return Err(EngineError::BatchTooLarge);
            }
            if members.len() > max_items - selected.len() {
                return Ok(selected);
            }
            selected.append(&mut members);
            i = i + 1;
        }
        assert(lists.skip(i as int) =~= Seq::<Seq<ItemId>>::empty());
        Ok(selected)
    }

    /// The members of a cohort by creation.
    fn cohort_members(&self, ids: &Vec<ItemId>, group: &String) -> (r: OrdSet<(u64, u64)>)
        requires
            ids@.to_set() == self@.items.dom(),
        ensures
            r@ == cohort_pairs(self@.items, group@),
    {
        let mut out: OrdSet<(u64, u64)> = OrdSet::new();
        let mut i: usize = 0;
        while i < ids.len()
            invariant
                i <= ids@.len(),
                ids@.to_set() == self@.items.dom(),
                forall|p: (u64, u64)| #[trigger]
                    out@.contains(p) <==> cohort_pairs(self@.items, group@).contains(p)
                        && ids@.take(i as int).contains(p.1),
            decreases ids@.len() - i,
        {
            let ghost before = out@;
            let ghost id = ids@[i as int];
            assert(ids@.to_set().contains(id));
            match self.record(ids[i]) {
                Some(rec) => {
                    if rec.in_cohort(group) {
                        let pair: (u64, u64) = (rec.created_seq, ids[i]);
                        assert(pair.kv() == (rec.created_seq, id));
                        out.insert(pair);
                    }
                },
                None => {},
            }
            proof {
                let t = ids@.take(i as int);
                let u = ids@.take(i as int + 1);
                assert(u =~= t.push(id));
                assert forall|p: (u64, u64)| #[trigger] out@.contains(p) <==> cohort_pairs(
                    self@.items,
                    group@,
                ).contains(p) && u.contains(p.1) by {
                    assert(before.contains(p) <==> cohort_pairs(self@.items, group@).contains(p)
                        && t.contains(p.1));
                    if t.contains(p.1) {
                        let j = choose|j: int| 0 <= j < t.len() && t[j] == p.1;
                        assert(u[j] == p.1);
                    }
                    if u.contains(p.1) {
                        let j = choose|j: int| 0 <= j < u.len() && u[j] == p.1;
                        if j < t.len() {
                            assert(t[j] == p.1);
                        } else {
                            assert(p.1 == id);
                        }
                    }
                    assert(u[i as int] == id);
                }
            }
            i = i + 1;
        }
        proof {
            assert(ids@.take(i as int) =~= ids@);
            assert forall|p: (u64, u64)| cohort_pairs(self@.items, group@).contains(
                p,
            ) implies ids@.contains(p.1) by {
                assert(ids@.to_set().contains(p.1));
            }
            assert(out@ =~= cohort_pairs(self@.items, group@));
        }
        out
    }

    /// The creation of the first member and the size, where a cohort is complete.
    fn complete_cohort(
        &self,
        everything: &Vec<ItemId>,
        open: &Vec<ItemId>,
        group: &String,
        required: &Metadata,
    ) -> (r: Option<(u64, usize)>)
        requires
            everything@.to_set() == self@.items.dom(),
        ensures
            match r {
                Some(x) => {
                    &&& cohort_complete(self@.items, group@, metadata_of(*required), open@)
                    &&& x.0 == cohort_list(self@.items, group@)[0].0
                    &&& x.1 == cohort_list(self@.items, group@).len()
                },
                None => !cohort_complete(self@.items, group@, metadata_of(*required), open@),
            },
    {
        let members = self.cohort_members(everything, group);
        let n = members.len();
        let ghost l = cohort_list(self@.items, group@);
        if n == 0 {
            return None;
        }
        proof {
            assert forall|k: int| 0 <= k < l.len() implies self@.items.contains_key(
                (#[trigger] l[k]).1,
            ) && cohort_member(group@)(self@.items[l[k].1]) by {
                assert(members@.contains(l[k]));
            }
        }
        let first = members.at(0);
        let declared = match self.record(first.1) {
            Some(rec) => rec.cohort_size,
            None => None,
        };
        assert(l[0].1 == first.1);
        match declared {
            Some(d) => {
                if d != n as u64 {
                    return None;
                }
                let mut k: usize = 0;
                while k < n
                    invariant
                        k <= n,
                        n == l.len(),
                        l == members.listing(),
                        d == n,
                        forall|j: int|
                            0 <= j < l.len() ==> self@.items.contains_key((#[trigger] l[j]).1),
                        forall|j: int|
                            0 <= j < k ==> {
                                &&& self@.items[(#[trigger] l[j]).1].cohort_size == Some(d)
                                &&& open@.contains(l[j].1)
                                &&& metadata_meets(self@.items[l[j].1], metadata_of(*required))
                            },
                        l == cohort_list(self@.items, group@),
                        self@.items[l[0].1].cohort_size == Some(d),
                    decreases n - k,
                {
                    let id = members.at(k).1;
                    assert(l[k as int].1 == id);
                    match self.record(id) {
                        Some(rec) => {
                            let sized = match rec.cohort_size {
                                Some(s) => s == d,
                                None => false,
                            };
                            if !sized || !among(open, id) || !rec.metadata_matches(required) {
                                return None;
                            }
                        },
                        None => {
                            return None;
                        },
                    }
                    k = k + 1;
                }
                Some((first.0, n))
            },
            None => None,
        }
    }

    /// The groups of live cohort items.
    fn cohort_groups(&self, everything: &Vec<ItemId>) -> (r: OrdSet<String>)
        requires
            everything@.to_set() == self@.items.dom(),
        ensures
            forall|id: ItemId, g: Seq<char>|
                self@.items.contains_key(id) && cohort_member(g)(self@.items[id])
                    ==> #[trigger] r@.contains(g) || !#[trigger] self@.items.contains_key(id),
    {
        let mut out: OrdSet<String> = OrdSet::new();
        let mut i: usize = 0;
        while i < everything.len()
            invariant
                i <= everything@.len(),
                everything@.to_set() == self@.items.dom(),
                forall|j: int|
                    #![trigger everything@[j]]
                    0 <= j < i ==> {
                        let x = self@.items[everything@[j]];
                        x.group_key is Some && cohort_member(x.group_key->Some_0)(x)
                            ==> out@.contains(x.group_key->Some_0)
                    },
            decreases everything@.len() - i,
        {
            assert(everything@.to_set().contains(everything@[i as int]));
            match self.record(everything[i]) {
                Some(rec) => {
                    match &rec.group_key {
                        Some(g) => {
                            if rec.in_cohort(g) {
                                out.insert(g.clone());
                            }
                        },
                        None => {},
                    }
                },
                None => {},
            }
            i = i + 1;
        }
        proof {
            assert forall|id: ItemId, g: Seq<char>|
                self@.items.contains_key(id) && cohort_member(g)(
                    self@.items[id],
                ) implies #[trigger] out@.contains(g) || !#[trigger] self@.items.contains_key(
                id,
            ) by {
                assert(everything@.to_set().contains(id));
                let j = choose|j: int| 0 <= j < everything@.len() && everything@[j] == id;
                let x = self@.items[everything@[j]];
            }
        }
        out
    }

    /// The complete cohorts by their beginning.
    fn ready_cohorts(
        &self,
        everything: &Vec<ItemId>,
        open: &Vec<ItemId>,
        required: &Metadata,
    ) -> (r: OrdSet<(u64, String)>)
        requires
            everything@.to_set() == self@.items.dom(),
        ensures
            r@ == complete_cohorts(self@.items, metadata_of(*required), open@),
    {
        let groups = self.cohort_groups(everything);
        let n = groups.len();
        let ghost want = complete_cohorts(self@.items, metadata_of(*required), open@);
        let mut out: OrdSet<(u64, String)> = OrdSet::new();
        let mut i: usize = 0;
        while i < n
            invariant
                i <= n,
                n == groups.listing().len(),
                everything@.to_set() == self@.items.dom(),
                want == complete_cohorts(self@.items, metadata_of(*required), open@),
                forall|p: (u64, Seq<char>)| #[trigger] out@.contains(p) ==> want.contains(p),
                forall|j: int, s: u64|
                    0 <= j < i && want.contains((s, #[trigger] groups.listing()[j]))
                        ==> #[trigger] out@.contains((s, groups.listing()[j])),
            decreases n - i,
        {
            let g = groups.at(i);
            let ghost before = out@;
            match self.complete_cohort(everything, open, g, required) {
                Some(x) => {
                    let pair: (u64, String) = (x.0, g.clone());
                    assert(pair.kv() == (x.0, g@));
                    out.insert(pair);
                },
                None => {},
            }
            proof {
                assert forall|j: int, s: u64|
                    0 <= j < i + 1 && want.contains(
                        (s, #[trigger] groups.listing()[j]),
                    ) implies #[trigger] out@.contains((s, groups.listing()[j])) by {
                    if j < i {
                        assert(before.contains((s, groups.listing()[j])));
                    } else {
                        assert(groups.listing()[j] == g@);
                    }
                }
            }
            i = i + 1;
        }
        proof {
            assert forall|p: (u64, Seq<char>)| #[trigger] want.contains(p) implies out@.contains(
                p,
            ) by {
                let l = cohort_list(self@.items, p.1);
                lemma_cohort_list(self@.items, p.1);
                let id = l[0].1;
                assert(cohort_pairs(self@.items, p.1).contains(l[0])) by {
                    assert(l.to_set().contains(l[0]));
                }
                assert(self@.items.contains_key(id));
                assert(groups@.contains(p.1));
                let j = choose|j: int|
                    0 <= j < groups.listing().len() && groups.listing()[j] == p.1;
                assert(want.contains((p.0, groups.listing()[j])));
                assert(out@.contains((p.0, groups.listing()[j])));
                assert(p == (p.0, p.1));
            }
            assert(out@ =~= want);
        }
        out
    }

    /// Selects a whole cohort to claim.
    pub fn select_whole_cohort(
        &self,
        compatibility: &ClaimCompatibility,
        now: UtcTimestamp,
        max_items: usize,
    ) -> (r: EngineResult<RichClaimSelection>)
        ensures
            selection_outcome(r) == whole_cohort(self@, compatibility@, now, max_items as nat),
    {
        let open = self.eligible_candidates(now, usize::MAX);
        let everything = self.all_ids();
        let required = &compatibility.metadata_equals;
        let ready = self.ready_cohorts(&everything, &open, required);
        let count = ready.len();
        if count == 0 {
            return Ok(RichClaimSelection::none());
        }
        let chosen = ready.at(0);
        let group = &chosen.1;
        proof {
            assert(ready@.contains(ready.listing()[0]));
            assert(chosen.kv() == (chosen.0, group@));
        }
        let members = self.cohort_members(&everything, group);
        if members.len() > max_items {
            return Err(EngineError::BatchTooLarge);
        }
        let mut name = "coh:".to_owned();
        name.append(group.as_str());
        name.append(":");
        push_u64(&mut name, chosen.0);
        let ghost f = cohort_member(group@);
        let mut item_ids: Vec<ItemId> = Vec::new();
        let mut i: usize = 0;
        assert(open@.take(0) =~= Seq::<ItemId>::empty());
        while i < open.len()
            invariant
                i <= open@.len(),
                f == cohort_member(group@),
                item_ids@ == kept(self@.items, open@.take(i as int), f),
            decreases open@.len() - i,
        {
            proof {
                assert(open@.take(i as int + 1).drop_last() =~= open@.take(i as int));
                assert(open@.take(i as int + 1).last() == open@[i as int]);
            }
            match self.record(open[i]) {
                Some(rec) => {
                    if rec.in_cohort(group) {
                        item_ids.push(open[i]);
                    }
                },
                None => {},
            }
            i = i + 1;
        }
        assert(open@.take(i as int) =~= open@);
        assert(name@ =~= cohort_name(group@, chosen.0));
        Ok(RichClaimSelection { item_ids, cohort_id: Some(name) })
    }

    /// Selects what a claim of more than single items takes.
    pub fn select_rich_claim(
        &self,
        unit: ClaimUnit,
        compatibility: &ClaimCompatibility,
        now: UtcTimestamp,
        max_items: usize,
    ) -> (r: EngineResult<RichClaimSelection>)
        ensures
            selection_outcome(r) == rich_claim(
                self@,
                unit,
                compatibility@,
                now,
                max_items as nat,
            ),
    {
        match unit {
            ClaimUnit::Item => Err(EngineError::Unavailable),
            ClaimUnit::WholeGroup => match self.select_group_batching(
                compatibility,
                now,
                max_items,
            ) {
                Ok(item_ids) => Ok(RichClaimSelection { item_ids, cohort_id: None }),
                Err(e) => Err(e),
            },
            ClaimUnit::SameGroupKey => Ok(
                RichClaimSelection {
                    item_ids: self.select_same_group(compatibility, now, max_items),
                    cohort_id: None,
                },
            ),
            ClaimUnit::WholeCohort => self.select_whole_cohort(compatibility, now, max_items),
        }
    }
}

pub proof fn lemma_cohort_list(items: Map<ItemId, Item>, group: Seq<char>)
    requires
        cohort_list(items, group).len() > 0,
        items.dom().finite(),
    ensures
        cohort_list(items, group).to_set() == cohort_pairs(items, group),
{
    let s = cohort_pairs(items, group);
    let t = items.dom().map(|id: ItemId| (items[id].created_seq, id));
    items.dom().lemma_map_finite(|id: ItemId| (items[id].created_seq, id));
    assert forall|p: (u64, u64)| s.contains(p) implies t.contains(p) by {
        assert((|id: ItemId| (items[id].created_seq, id))(p.1) == p);
        assert(items.dom().contains(p.1));
    }
    vstd::set_lib::lemma_set_subset_finite(t, s);
    lemma_listing_exists::<(u64, u64)>(s);
}

/// Nothing that a claim of single items takes lies outside of what may be claimed, and what it takes
/// has the group and the metadata that were asked for.
pub proof fn law_item_claim_matches(
    m: Model,
    c: CompatibilityV,
    now: UtcTimestamp,
    max: nat,
    k: int,
)
    requires
        c.group_key is Some || c.metadata_equals.dom() != Set::<Seq<char>>::empty(),
        0 <= k < item_claim(m, c, now, max).len(),
    ensures
        ({
            let id = item_claim(m, c, now, max)[k];
            &&& all_candidates(m, now).contains(id)
            &&& m.items.contains_key(id)
            &&& (c.group_key is Some ==> m.items[id].group_key == c.group_key)
            &&& metadata_meets(m.items[id], c.metadata_equals)
            &&& m.items[id].cohort_size is None
        }),
        item_claim(m, c, now, max).len() <= max,
{
    lemma_kept_holds(
        m.items,
        all_candidates(m, now),
        matching(c.group_key, false, c.metadata_equals),
        k,
    );
}

/// A claim of whole groups stays within its limit.
pub proof fn law_whole_groups_fit(taken: Seq<ItemId>, groups: Seq<Seq<ItemId>>, max: nat)
    requires
        taken.len() <= max,
    ensures
        groups_taken(taken, groups, max) matches Ok(ids) ==> ids.len() <= max,
    decreases groups.len(),
{
    if groups.len() > 0 && groups[0].len() <= max && taken.len() + groups[0].len() <= max {
        law_whole_groups_fit(taken + groups[0], groups.drop_first(), max);
    }
}

/// All the items that a claim within a group takes are of one group.
pub proof fn law_same_group_shares_its_group(
    m: Model,
    c: CompatibilityV,
    now: UtcTimestamp,
    max: nat,
    j: int,
    k: int,
)
    requires
        0 <= j < same_group(m, c, now, max).len(),
        0 <= k < same_group(m, c, now, max).len(),
    ensures
        m.items[same_group(m, c, now, max)[j]].group_key is Some,
        m.items[same_group(m, c, now, max)[j]].group_key == m.items[same_group(
            m,
            c,
            now,
            max,
        )[k]].group_key,
{
    let all = all_candidates(m, now);
    let f = matching(c.group_key, true, c.metadata_equals);
    let open = kept(m.items, all, f);
    lemma_kept_holds(m.items, all, f, 0);
    let g = matching(m.items[open[0]].group_key, true, c.metadata_equals);
    lemma_kept_holds(m.items, all, g, j);
    lemma_kept_holds(m.items, all, g, k);
}

} // verus!
