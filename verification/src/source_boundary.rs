//! The boundary between the source of a release and its evidence.
//!
//! The boundary is fail-closed: a new one admits no promoted evidence. Each promoted data input has to
//! be named, while source, executables and build context have to lie below the source root and outside
//! the evidence root.

use crate::evidence_io::{Fact, Facts, Halt, HaltV, Promoted, canonical, canonical_of};
use crate::path::{PartV, begins, parts_of, same_path, starts_with};
use crate::text::texts;
use vstd::prelude::*;
use vstd::string::*;

verus! {

/// A class of source-side input that no allowlist can authorize.
#[derive(Clone, Copy, Debug, PartialEq, Eq, Structural)]
pub enum SourceInputKind {
    Source,
    Executable,
    BuildContext,
}

pub open spec fn source_kind_name(k: SourceInputKind) -> &'static str {
    match k {
        SourceInputKind::Source => "Source",
        SourceInputKind::Executable => "Executable",
        SourceInputKind::BuildContext => "BuildContext",
    }
}

impl SourceInputKind {
    pub fn name(self) -> (r: &'static str)
        ensures
            r == source_kind_name(self),
    {
        match self {
            SourceInputKind::Source => "Source",
            SourceInputKind::Executable => "Executable",
            SourceInputKind::BuildContext => "BuildContext",
        }
    }
}

/// A path consumed as source, an executable or build context.
pub struct SourceInput {
    path: String,
    kind: SourceInputKind,
}

impl SourceInput {
    pub closed spec fn view(&self) -> (SourceInputKind, Seq<char>) {
        (self.kind, self.path@)
    }

    pub fn new(kind: SourceInputKind, path: String) -> (r: SourceInput)
        ensures
            r@ == (kind, path@),
    {
        SourceInput { path, kind }
    }

    pub fn path(&self) -> (r: &String)
        ensures
            r@ == self@.1,
    {
        &self.path
    }

    pub fn kind(&self) -> (r: SourceInputKind)
        ensures
            r == self@.0,
    {
        self.kind
    }
}

/// A violation of the boundary.
pub enum SourceBoundaryError {
    Io(String),
    InvalidRoot { root: &'static str, path: String },
    OutsideSourceRoot { kind: SourceInputKind, path: String },
    EvidenceOverlap { kind: SourceInputKind, path: String },
    AllowlistEntryOutsideEvidenceRoot(String),
    PromotedDataNotAllowlisted(String),
}

pub enum BoundaryErrorV {
    Io(Seq<char>),
    InvalidRoot(Seq<char>, Seq<char>),
    OutsideSourceRoot(SourceInputKind, Seq<char>),
    EvidenceOverlap(SourceInputKind, Seq<char>),
    AllowlistEntryOutsideEvidenceRoot(Seq<char>),
    PromotedDataNotAllowlisted(Seq<char>),
}

impl SourceBoundaryError {
    pub open spec fn view(&self) -> BoundaryErrorV {
        match self {
            SourceBoundaryError::Io(m) => BoundaryErrorV::Io(m@),
            SourceBoundaryError::InvalidRoot { root, path } => BoundaryErrorV::InvalidRoot(
                root@,
                path@,
            ),
            SourceBoundaryError::OutsideSourceRoot {
                kind,
                path,
            } => BoundaryErrorV::OutsideSourceRoot(*kind, path@),
            SourceBoundaryError::EvidenceOverlap { kind, path } => BoundaryErrorV::EvidenceOverlap(
                *kind,
                path@,
            ),
            SourceBoundaryError::AllowlistEntryOutsideEvidenceRoot(
                p,
            ) => BoundaryErrorV::AllowlistEntryOutsideEvidenceRoot(p@),
            SourceBoundaryError::PromotedDataNotAllowlisted(
                p,
            ) => BoundaryErrorV::PromotedDataNotAllowlisted(p@),
        }
    }

    /// The violation in words.
    pub fn message(&self) -> (r: String)
        ensures
            r@ == boundary_message(self@),
    {
        match self {
            SourceBoundaryError::Io(m) => "source-boundary I/O failed: ".to_owned().concat(
                m.as_str(),
            ),
            SourceBoundaryError::InvalidRoot { root, path } => (*root).to_owned().concat(
                " root is not a directory: ",
            ).concat(path.as_str()),
            SourceBoundaryError::OutsideSourceRoot { kind, path } => kind.name().to_owned().concat(
                " input originates outside the source root: ",
            ).concat(path.as_str()),
            SourceBoundaryError::EvidenceOverlap { kind, path } => kind.name().to_owned().concat(
                " input overlaps the evidence root: ",
            ).concat(path.as_str()),
            SourceBoundaryError::AllowlistEntryOutsideEvidenceRoot(
                p,
            ) => "promoted-data allowlist entry is outside the evidence root: ".to_owned().concat(
                p.as_str(),
            ),
            SourceBoundaryError::PromotedDataNotAllowlisted(
                p,
            ) => "promoted data is not explicitly allowlisted: ".to_owned().concat(p.as_str()),
        }
    }
}

pub open spec fn boundary_message(e: BoundaryErrorV) -> Seq<char> {
    match e {
        BoundaryErrorV::Io(m) => "source-boundary I/O failed: "@ + m,
        BoundaryErrorV::InvalidRoot(r, p) => r + " root is not a directory: "@ + p,
        BoundaryErrorV::OutsideSourceRoot(k, p) => source_kind_name(k)@
            + " input originates outside the source root: "@ + p,
        BoundaryErrorV::EvidenceOverlap(k, p) => source_kind_name(k)@
            + " input overlaps the evidence root: "@ + p,
        BoundaryErrorV::AllowlistEntryOutsideEvidenceRoot(
            p,
        ) => "promoted-data allowlist entry is outside the evidence root: "@ + p,
        BoundaryErrorV::PromotedDataNotAllowlisted(
            p,
        ) => "promoted data is not explicitly allowlisted: "@ + p,
    }
}

/// The source root, the evidence root and the promoted data that may be read.
pub ghost struct BoundaryV {
    pub source_root: Seq<char>,
    pub evidence_root: Seq<char>,
    pub allowed: Set<Seq<PartV>>,
}

pub type BoundaryHaltV = HaltV<BoundaryErrorV>;

pub open spec fn boundary_place(facts: Map<Seq<char>, Fact>, path: Seq<char>) -> Result<
    Seq<char>,
    BoundaryHaltV,
> {
    match canonical_of(facts, path) {
        Ok(p) => Ok(p),
        Err(HaltV::Look(p)) => Err(HaltV::Look(p)),
        Err(HaltV::Fail(e)) => Err(HaltV::Fail(BoundaryErrorV::Io(crate::attestation::io_text(e)))),
    }
}

/// What a step of the boundary gave, or why it has no result.
pub open spec fn boundary_halt(h: Halt<SourceBoundaryError>) -> BoundaryHaltV {
    match h {
        Halt::Look(p) => HaltV::Look(p@),
        Halt::Fail(e) => HaltV::Fail(e@),
    }
}

fn place(facts: &Facts, path: &str) -> (r: Result<String, Halt<SourceBoundaryError>>)
    ensures
        match r {
            Ok(p) => boundary_place(facts@, path@) == Ok::<Seq<char>, BoundaryHaltV>(p@),
            Err(h) => boundary_place(facts@, path@) == Err::<Seq<char>, BoundaryHaltV>(
                boundary_halt(h),
            ),
        },
{
    match canonical(facts, path) {
        Ok(p) => Ok(p),
        Err(Halt::Look(p)) => Err(Halt::Look(p)),
        Err(Halt::Fail(e)) => Err(
            Halt::Fail(SourceBoundaryError::Io(crate::attestation::io_words(&e))),
        ),
    }
}

pub open spec fn directory_place(
    facts: Map<Seq<char>, Fact>,
    root: Seq<char>,
    path: Seq<char>,
) -> Result<Seq<char>, BoundaryHaltV> {
    match boundary_place(facts, path) {
        Err(h) => Err(h),
        Ok(p) => if !facts.contains_key(p) {
            Err(HaltV::Look(p))
        } else if facts[p].directory {
            Ok(p)
        } else {
            Err(HaltV::Fail(BoundaryErrorV::InvalidRoot(root, p)))
        },
    }
}

fn canonical_directory(facts: &Facts, root: &'static str, path: &str) -> (r: Result<
    String,
    Halt<SourceBoundaryError>,
>)
    ensures
        match r {
            Ok(p) => directory_place(facts@, root@, path@) == Ok::<Seq<char>, BoundaryHaltV>(p@),
            Err(h) => directory_place(facts@, root@, path@) == Err::<Seq<char>, BoundaryHaltV>(
                boundary_halt(h),
            ),
        },
{
    let p = match place(facts, path) {
        Ok(p) => p,
        Err(h) => {
            return Err(h);
        },
    };
    let directory = match facts.get(&p) {
        Some(f) => f.directory,
        None => {
            return Err(Halt::Look(p));
        },
    };
    if directory {
        Ok(p)
    } else {
        Err(Halt::Fail(SourceBoundaryError::InvalidRoot { root, path: p }))
    }
}

/// A boundary whose allowlist is empty.
pub open spec fn new_boundary(
    facts: Map<Seq<char>, Fact>,
    source_root: Seq<char>,
    evidence_root: Seq<char>,
) -> Result<BoundaryV, BoundaryHaltV> {
    match directory_place(facts, "source"@, source_root) {
        Err(h) => Err(h),
        Ok(source) => match directory_place(facts, "evidence"@, evidence_root) {
            Err(h) => Err(h),
            Ok(evidence) => Ok(
                BoundaryV { source_root: source, evidence_root: evidence, allowed: Set::empty() },
            ),
        },
    }
}

/// The promoted data that a list of paths allows, if all of it is evidence.
pub open spec fn allowlist(
    facts: Map<Seq<char>, Fact>,
    evidence_root: Seq<char>,
    paths: Seq<Seq<char>>,
    allowed: Set<Seq<PartV>>,
) -> Result<Set<Seq<PartV>>, BoundaryHaltV>
    decreases paths.len(),
{
    if paths.len() == 0 {
        Ok(allowed)
    } else {
        match boundary_place(facts, paths[0]) {
            Err(h) => Err(h),
            Ok(p) => if begins(p, evidence_root) {
                allowlist(facts, evidence_root, paths.drop_first(), allowed.insert(parts_of(p)))
            } else {
                Err(HaltV::Fail(BoundaryErrorV::AllowlistEntryOutsideEvidenceRoot(p)))
            },
        }
    }
}

/// The first source-side input that is not below the source root, or is evidence, is refused.
pub open spec fn sources_valid(
    facts: Map<Seq<char>, Fact>,
    b: BoundaryV,
    inputs: Seq<(SourceInputKind, Seq<char>)>,
) -> Result<(), BoundaryHaltV>
    decreases inputs.len(),
{
    if inputs.len() == 0 {
        Ok(())
    } else {
        match boundary_place(facts, inputs[0].1) {
            Err(h) => Err(h),
            Ok(p) => if !begins(p, b.source_root) {
                Err(HaltV::Fail(BoundaryErrorV::OutsideSourceRoot(inputs[0].0, p)))
            } else if begins(p, b.evidence_root) {
                Err(HaltV::Fail(BoundaryErrorV::EvidenceOverlap(inputs[0].0, p)))
            } else {
                sources_valid(facts, b, inputs.drop_first())
            },
        }
    }
}

/// The first promoted input that is not named is refused.
pub open spec fn promoted_valid(b: BoundaryV, inputs: Seq<Seq<char>>) -> Result<(), BoundaryHaltV>
    decreases inputs.len(),
{
    if inputs.len() == 0 {
        Ok(())
    } else if b.allowed.contains(parts_of(inputs[0])) {
        promoted_valid(b, inputs.drop_first())
    } else {
        Err(HaltV::Fail(BoundaryErrorV::PromotedDataNotAllowlisted(inputs[0])))
    }
}

pub open spec fn boundary_valid(
    facts: Map<Seq<char>, Fact>,
    b: BoundaryV,
    sources: Seq<(SourceInputKind, Seq<char>)>,
    promoted: Seq<Seq<char>>,
) -> Result<(), BoundaryHaltV> {
    match sources_valid(facts, b, sources) {
        Err(h) => Err(h),
        Ok(_) => promoted_valid(b, promoted),
    }
}

pub open spec fn source_views(v: Seq<SourceInput>) -> Seq<(SourceInputKind, Seq<char>)> {
    v.map_values(|s: SourceInput| s@)
}

pub open spec fn promoted_views(v: Seq<Promoted>) -> Seq<Seq<char>> {
    v.map_values(|p: Promoted| p@)
}

pub open spec fn place_set(v: Seq<String>) -> Set<Seq<PartV>> {
    v.map_values(|s: String| parts_of(s@)).to_set()
}

/// The rules of the boundary between source and evidence.
pub struct SourceBoundary {
    source_root: String,
    evidence_root: String,
    promoted_allowlist: Vec<String>,
}

impl SourceBoundary {
    pub closed spec fn view(&self) -> BoundaryV {
        BoundaryV {
            source_root: self.source_root@,
            evidence_root: self.evidence_root@,
            allowed: place_set(self.promoted_allowlist@),
        }
    }

    /// A boundary that admits no promoted data.
    pub fn new(source_root: &str, evidence_root: &str, facts: &Facts) -> (r: Result<
        SourceBoundary,
        Halt<SourceBoundaryError>,
    >)
        ensures
            match r {
                Ok(b) => new_boundary(facts@, source_root@, evidence_root@) == Ok::<
                    BoundaryV,
                    BoundaryHaltV,
                >(b@),
                Err(h) => new_boundary(facts@, source_root@, evidence_root@) == Err::<
                    BoundaryV,
                    BoundaryHaltV,
                >(boundary_halt(h)),
            },
    {
        let source_root = match canonical_directory(facts, "source", source_root) {
            Ok(p) => p,
            Err(h) => {
                return Err(h);
            },
        };
        let evidence_root = match canonical_directory(facts, "evidence", evidence_root) {
            Ok(p) => p,
            Err(h) => {
                return Err(h);
            },
        };
        let r = SourceBoundary { source_root, evidence_root, promoted_allowlist: Vec::new() };
        assert(place_set(r.promoted_allowlist@) =~= Set::<Seq<PartV>>::empty());
        Ok(r)
    }

    /// Replaces the allowlist by exact evidence paths.
    ///
    /// A directory does not authorize what is below it.
    pub fn with_promoted_allowlist(self, paths: &Vec<String>, facts: &Facts) -> (r: Result<
        SourceBoundary,
        Halt<SourceBoundaryError>,
    >)
        ensures
            match r {
                Ok(b) => allowlist(facts@, self@.evidence_root, texts(paths@), Set::empty()) == Ok::<
                    Set<Seq<PartV>>,
                    BoundaryHaltV,
                >(b@.allowed) && b@ == (BoundaryV { allowed: b@.allowed, ..self@ }),
                Err(h) => allowlist(facts@, self@.evidence_root, texts(paths@), Set::empty())
                    == Err::<Set<Seq<PartV>>, BoundaryHaltV>(boundary_halt(h)),
            },
    {
        let ghost all = texts(paths@);
        let ghost none = Set::<Seq<PartV>>::empty();
        let mut list: Vec<String> = Vec::new();
        let mut i: usize = 0;
        assert(place_set(list@) =~= none);
        assert(all.skip(0) =~= all);
        while i < paths.len()
            invariant
                i <= paths@.len(),
                all == texts(paths@),
                none == Set::<Seq<PartV>>::empty(),
                allowlist(
                    facts@,
                    self.evidence_root@,
                    all.skip(i as int),
                    place_set(list@),
                ) == allowlist(facts@, self.evidence_root@, all, none),
            decreases paths@.len() - i,
        {
            proof {
                assert(all.skip(i as int)[0] == paths@[i as int]@);
                assert(all.skip(i as int).drop_first() =~= all.skip(i as int + 1));
            }
            let p = match place(facts, paths[i].as_str()) {
                Ok(p) => p,
                Err(h) => {
                    return Err(h);
                },
            };
            if !starts_with(p.as_str(), self.evidence_root.as_str()) {
                return Err(Halt::Fail(SourceBoundaryError::AllowlistEntryOutsideEvidenceRoot(p)));
            }
            let ghost before = list@;
            list.push(p);
            proof {
                lemma_place_set_push(before, p);
            }
            i = i + 1;
        }
        assert(all.skip(i as int) =~= Seq::<Seq<char>>::empty());
        Ok(
            SourceBoundary {
                source_root: self.source_root,
                evidence_root: self.evidence_root,
                promoted_allowlist: list,
            },
        )
    }

    /// Validates all declared source-side and promoted-data inputs.
    pub fn validate(
        &self,
        source_inputs: &Vec<SourceInput>,
        promoted_inputs: &Vec<Promoted>,
        facts: &Facts,
    ) -> (r: Result<(), Halt<SourceBoundaryError>>)
        ensures
            match r {
                Ok(_) => boundary_valid(
                    facts@,
                    self@,
                    source_views(source_inputs@),
                    promoted_views(promoted_inputs@),
                ) is Ok,
                Err(h) => boundary_valid(
                    facts@,
                    self@,
                    source_views(source_inputs@),
                    promoted_views(promoted_inputs@),
                ) == Err::<(), BoundaryHaltV>(boundary_halt(h)),
            },
    {
        let ghost b = self@;
        let ghost sources = source_views(source_inputs@);
        let ghost promoted = promoted_views(promoted_inputs@);
        let mut i: usize = 0;
        assert(sources.skip(0) =~= sources);
        while i < source_inputs.len()
            invariant
                i <= source_inputs@.len(),
                b == self@,
                sources == source_views(source_inputs@),
                promoted == promoted_views(promoted_inputs@),
                sources_valid(facts@, b, sources.skip(i as int)) == sources_valid(
                    facts@,
                    b,
                    sources,
                ),
            decreases source_inputs@.len() - i,
        {
            proof {
                assert(sources.skip(i as int)[0] == source_inputs@[i as int]@);
                assert(sources.skip(i as int).drop_first() =~= sources.skip(i as int + 1));
            }
            let input = &source_inputs[i];
            let p = match place(facts, input.path().as_str()) {
                Ok(p) => p,
                Err(h) => {
                    return Err(h);
                },
            };
            if !starts_with(p.as_str(), self.source_root.as_str()) {
                return Err(
                    Halt::Fail(
                        SourceBoundaryError::OutsideSourceRoot { kind: input.kind(), path: p },
                    ),
                );
            }
            if starts_with(p.as_str(), self.evidence_root.as_str()) {
                return Err(
                    Halt::Fail(SourceBoundaryError::EvidenceOverlap { kind: input.kind(), path: p }),
                );
            }
            i = i + 1;
        }
        assert(sources.skip(i as int) =~= Seq::<(SourceInputKind, Seq<char>)>::empty());
        let mut k: usize = 0;
        assert(promoted.skip(0) =~= promoted);
        while k < promoted_inputs.len()
            invariant
                k <= promoted_inputs@.len(),
                b == self@,
                sources == source_views(source_inputs@),
                promoted == promoted_views(promoted_inputs@),
                sources_valid(facts@, b, sources) is Ok,
                promoted_valid(b, promoted.skip(k as int)) == promoted_valid(b, promoted),
            decreases promoted_inputs@.len() - k,
        {
            proof {
                assert(promoted.skip(k as int)[0] == promoted_inputs@[k as int]@);
                assert(promoted.skip(k as int).drop_first() =~= promoted.skip(k as int + 1));
            }
            let p = promoted_inputs[k].path();
            if !self.allows(p.as_str()) {
                return Err(Halt::Fail(SourceBoundaryError::PromotedDataNotAllowlisted(p.clone())));
            }
            k = k + 1;
        }
        assert(promoted.skip(k as int) =~= Seq::<Seq<char>>::empty());
        Ok(())
    }

    fn allows(&self, path: &str) -> (r: bool)
        ensures
            r <==> self@.allowed.contains(parts_of(path@)),
    {
        let list = &self.promoted_allowlist;
        let ghost places = list@.map_values(|s: String| parts_of(s@));
        let mut i: usize = 0;
        while i < list.len()
            invariant
                i <= list@.len(),
                self@.allowed == places.to_set(),
                places == list@.map_values(|s: String| parts_of(s@)),
                forall|j: int| 0 <= j < i ==> places[j] != parts_of(path@),
            decreases list@.len() - i,
        {
            if same_path(list[i].as_str(), path) {
                assert(places[i as int] == parts_of(path@));
                assert(places.contains(parts_of(path@)));
                return true;
            }
            i = i + 1;
        }
        false
    }

    pub fn promoted_allowlist_is_empty(&self) -> (r: bool)
        ensures
            r <==> self@.allowed == Set::<Seq<PartV>>::empty(),
    {
        let ghost places = self.promoted_allowlist@.map_values(|s: String| parts_of(s@));
        proof {
            if places.len() > 0 {
                assert(places.contains(places[0]));
                assert(place_set(self.promoted_allowlist@).contains(places[0]));
            } else {
                assert(place_set(self.promoted_allowlist@) =~= Set::<Seq<PartV>>::empty());
            }
        }
        self.promoted_allowlist.len() == 0
    }
}

proof fn lemma_place_set_push(v: Seq<String>, s: String)
    ensures
        place_set(v.push(s)) == place_set(v).insert(parts_of(s@)),
{
    let a = v.map_values(|s: String| parts_of(s@));
    let b = v.push(s).map_values(|s: String| parts_of(s@));
    assert(b =~= a.push(parts_of(s@)));
    assert forall|x: Seq<PartV>| b.contains(x) == (a.contains(x) || x == parts_of(s@)) by {
        if a.contains(x) {
            let i = choose|i: int| 0 <= i < a.len() && a[i] == x;
            assert(b[i] == x);
        }
        assert(b[a.len() as int] == parts_of(s@));
        if b.contains(x) {
            let i = choose|i: int| 0 <= i < b.len() && b[i] == x;
            if i < a.len() {
                assert(a[i] == x);
            }
        }
    }
    assert(place_set(v.push(s)) =~= place_set(v).insert(parts_of(s@)));
}

/// A source-side input that resolves below the source root and outside the evidence root.
pub open spec fn source_side(facts: Map<Seq<char>, Fact>, b: BoundaryV, path: Seq<char>) -> bool {
    match boundary_place(facts, path) {
        Ok(p) => begins(p, b.source_root) && !begins(p, b.evidence_root),
        Err(_) => false,
    }
}

proof fn lemma_sources_valid(
    facts: Map<Seq<char>, Fact>,
    b: BoundaryV,
    inputs: Seq<(SourceInputKind, Seq<char>)>,
)
    ensures
        sources_valid(facts, b, inputs) is Ok <==> forall|k: int|
            0 <= k < inputs.len() ==> source_side(facts, b, (#[trigger] inputs[k]).1),
    decreases inputs.len(),
{
    if inputs.len() > 0 {
        let rest = inputs.drop_first();
        lemma_sources_valid(facts, b, rest);
        if sources_valid(facts, b, inputs) is Ok {
            assert forall|k: int| 0 <= k < inputs.len() implies source_side(
                facts,
                b,
                (#[trigger] inputs[k]).1,
            ) by {
                if k > 0 {
                    assert(rest[k - 1] == inputs[k]);
                }
            }
        } else if source_side(facts, b, inputs[0].1) {
            let k = choose|k: int|
                0 <= k < rest.len() && !source_side(facts, b, (#[trigger] rest[k]).1);
            assert(inputs[k + 1] == rest[k]);
        }
    }
}

proof fn lemma_promoted_valid(b: BoundaryV, inputs: Seq<Seq<char>>)
    ensures
        promoted_valid(b, inputs) is Ok <==> forall|k: int|
            0 <= k < inputs.len() ==> b.allowed.contains(parts_of(#[trigger] inputs[k])),
    decreases inputs.len(),
{
    if inputs.len() > 0 {
        let rest = inputs.drop_first();
        lemma_promoted_valid(b, rest);
        if promoted_valid(b, inputs) is Ok {
            assert forall|k: int| 0 <= k < inputs.len() implies b.allowed.contains(
                parts_of(#[trigger] inputs[k]),
            ) by {
                if k > 0 {
                    assert(rest[k - 1] == inputs[k]);
                }
            }
        } else if b.allowed.contains(parts_of(inputs[0])) {
            let k = choose|k: int|
                0 <= k < rest.len() && !b.allowed.contains(parts_of(#[trigger] rest[k]));
            assert(inputs[k + 1] == rest[k]);
        }
    }
}

/// Inputs are accepted just where each source-side input resolves below the source root and outside the
/// evidence root, and each promoted input is itself on the allowlist: a directory there admits none of
/// its descendants.
pub proof fn law_accepted_inputs_keep_to_their_side(
    facts: Map<Seq<char>, Fact>,
    b: BoundaryV,
    sources: Seq<(SourceInputKind, Seq<char>)>,
    promoted: Seq<Seq<char>>,
)
    ensures
        boundary_valid(facts, b, sources, promoted) is Ok <==> {
            &&& forall|k: int|
                0 <= k < sources.len() ==> source_side(facts, b, (#[trigger] sources[k]).1)
            &&& forall|k: int|
                0 <= k < promoted.len() ==> b.allowed.contains(parts_of(#[trigger] promoted[k]))
        },
{
    lemma_sources_valid(facts, b, sources);
    lemma_promoted_valid(b, promoted);
}

/// Whatever is allowlisted, a source-side input inside the evidence root is refused.
pub proof fn law_allowlist_never_admits_source(
    facts: Map<Seq<char>, Fact>,
    b: BoundaryV,
    sources: Seq<(SourceInputKind, Seq<char>)>,
    promoted: Seq<Seq<char>>,
    allowed: Set<Seq<PartV>>,
    k: int,
)
    requires
        0 <= k < sources.len(),
        boundary_place(facts, sources[k].1) is Ok,
        begins(boundary_place(facts, sources[k].1)->Ok_0, b.evidence_root),
    ensures
        boundary_valid(facts, (BoundaryV { allowed, ..b }), sources, promoted) is Err,
{
    let c = BoundaryV { allowed, ..b };
    lemma_sources_valid(facts, c, sources);
    assert(!source_side(facts, c, sources[k].1));
}

/// A boundary whose allowlist is empty admits no promoted data.
pub proof fn law_empty_allowlist_refuses_promoted_data(
    facts: Map<Seq<char>, Fact>,
    b: BoundaryV,
    sources: Seq<(SourceInputKind, Seq<char>)>,
    promoted: Seq<Seq<char>>,
)
    requires
        b.allowed == Set::<Seq<PartV>>::empty(),
        promoted.len() > 0,
    ensures
        boundary_valid(facts, b, sources, promoted) is Err,
{
}

} // verus!
