//! Ownership of release-evidence paths: what may be read, and where a run may write.
//!
//! The rules decide on what was seen of the file system. Where a rule needs a path that was not looked
//! at yet, it says which, and is asked again with more facts.

use crate::order::OrdMap;
use crate::path::{PartV, absolute, begins, file_name, is_absolute, join, joined, last_name, law_normal_forms_are_plain, lemma_name_below, lemma_parent_parts, lemma_parent_shorter, lemma_part_names, lemma_remainder_parts, lexical, normalize, parent, parent_of, part_text, parts, parts_of, parts_v, remainder, same_path, starts_with, strip_prefix};
use vstd::prelude::*;
use vstd::string::*;

verus! {

/// An operation that a release-evidence path may authorize.
#[derive(Clone, Copy, Debug, PartialEq, Eq, Structural)]
pub enum EvidenceOperation {
    Read,
    Write,
    Delete,
}

impl EvidenceOperation {
    pub fn name(&self) -> (r: &'static str)
        ensures
            r == operation_name(*self),
    {
        match self {
            EvidenceOperation::Read => "Read",
            EvidenceOperation::Write => "Write",
            EvidenceOperation::Delete => "Delete",
        }
    }
}

pub open spec fn operation_name(o: EvidenceOperation) -> &'static str {
    match o {
        EvidenceOperation::Read => "Read",
        EvidenceOperation::Write => "Write",
        EvidenceOperation::Delete => "Delete",
    }
}

/// What became of resolving the symlinks of a path.
pub enum Resolution {
    Path(String),
    /// Nothing stands there; the text is the system's message.
    Missing(String),
    /// Another failure; the text is the system's message.
    Failed(String),
}

pub enum ResolutionV {
    Path(Seq<char>),
    Missing(Seq<char>),
    Failed(Seq<char>),
}

impl Resolution {
    pub open spec fn view(&self) -> ResolutionV {
        match self {
            Resolution::Path(p) => ResolutionV::Path(p@),
            Resolution::Missing(m) => ResolutionV::Missing(m@),
            Resolution::Failed(m) => ResolutionV::Failed(m@),
        }
    }
}

/// What was seen of one path.
pub struct Fact {
    /// The path itself is a symlink.
    pub symlink: bool,
    /// Something stands at the end of the path.
    pub exists: bool,
    /// A directory stands at the end of the path.
    pub directory: bool,
    pub canonical: Resolution,
}

/// What was seen of the file system, by path.
pub type Facts = OrdMap<String, Fact>;

/// Why a rule has no result.
pub enum Halt<E> {
    /// It needs to know what stands at this path.
    Look(String),
    Fail(E),
}

pub enum HaltV<V> {
    Look(Seq<char>),
    Fail(V),
}

/// A validation failure of an evidence path.
pub enum EvidenceIoError {
    Io(String),
    MissingInput(String),
    InvalidRunRoot(String),
    TrackedEvidence(String),
    RepositoryOwned(String),
    OutsideRunRoot { path: String, run_root: String },
    SymlinkEscape { path: String, run_root: String },
    OperationDenied { ownership: &'static str, operation: EvidenceOperation },
}

pub enum IoErrorV {
    Io(Seq<char>),
    MissingInput(Seq<char>),
    InvalidRunRoot(Seq<char>),
    TrackedEvidence(Seq<char>),
    RepositoryOwned(Seq<char>),
    OutsideRunRoot(Seq<char>, Seq<char>),
    SymlinkEscape(Seq<char>, Seq<char>),
    OperationDenied(Seq<char>, EvidenceOperation),
}

impl EvidenceIoError {
    pub open spec fn view(&self) -> IoErrorV {
        match self {
            EvidenceIoError::Io(m) => IoErrorV::Io(m@),
            EvidenceIoError::MissingInput(p) => IoErrorV::MissingInput(p@),
            EvidenceIoError::InvalidRunRoot(p) => IoErrorV::InvalidRunRoot(p@),
            EvidenceIoError::TrackedEvidence(p) => IoErrorV::TrackedEvidence(p@),
            EvidenceIoError::RepositoryOwned(p) => IoErrorV::RepositoryOwned(p@),
            EvidenceIoError::OutsideRunRoot { path, run_root } => IoErrorV::OutsideRunRoot(
                path@,
                run_root@,
            ),
            EvidenceIoError::SymlinkEscape { path, run_root } => IoErrorV::SymlinkEscape(
                path@,
                run_root@,
            ),
            EvidenceIoError::OperationDenied {
                ownership,
                operation,
            } => IoErrorV::OperationDenied(ownership@, *operation),
        }
    }

    /// The failure in words.
    pub fn message(&self) -> (r: String)
        ensures
            r@ == io_message(self@),
    {
        match self {
            EvidenceIoError::Io(m) => "evidence path I/O failed: ".to_owned().concat(m.as_str()),
            EvidenceIoError::MissingInput(p) => "evidence input does not exist: ".to_owned().concat(
                p.as_str(),
            ),
            EvidenceIoError::InvalidRunRoot(
                p,
            ) => "run-owned root must be an existing external directory: ".to_owned().concat(
                p.as_str(),
            ),
            EvidenceIoError::TrackedEvidence(
                p,
            ) => "run-owned output cannot target tracked evidence: ".to_owned().concat(p.as_str()),
            EvidenceIoError::RepositoryOwned(
                p,
            ) => "run-owned output cannot target the repository: ".to_owned().concat(p.as_str()),
            EvidenceIoError::OutsideRunRoot {
                path,
                run_root,
            } => "run-owned output ".to_owned().concat(path.as_str()).concat(
                " is outside ",
            ).concat(run_root.as_str()),
            EvidenceIoError::SymlinkEscape {
                path,
                run_root,
            } => "run-owned output ".to_owned().concat(path.as_str()).concat(" escapes ").concat(
                run_root.as_str(),
            ).concat(" through a symlink"),
            EvidenceIoError::OperationDenied {
                ownership,
                operation,
            } => (*ownership).to_owned().concat(" evidence does not authorize ").concat(
                operation.name(),
            ),
        }
    }
}

pub open spec fn io_message(e: IoErrorV) -> Seq<char> {
    match e {
        IoErrorV::Io(m) => "evidence path I/O failed: "@ + m,
        IoErrorV::MissingInput(p) => "evidence input does not exist: "@ + p,
        IoErrorV::InvalidRunRoot(p) => "run-owned root must be an existing external directory: "@
            + p,
        IoErrorV::TrackedEvidence(p) => "run-owned output cannot target tracked evidence: "@ + p,
        IoErrorV::RepositoryOwned(p) => "run-owned output cannot target the repository: "@ + p,
        IoErrorV::OutsideRunRoot(p, r) => "run-owned output "@ + p + " is outside "@ + r,
        IoErrorV::SymlinkEscape(p, r) => "run-owned output "@ + p + " escapes "@ + r
            + " through a symlink"@,
        IoErrorV::OperationDenied(o, op) => o + " evidence does not authorize "@ + operation_name(
            op,
        )@,
    }
}

/// A text or the reason that there is none.
pub open spec fn io_step(r: Result<String, Halt<EvidenceIoError>>) -> Result<
    Seq<char>,
    HaltV<IoErrorV>,
> {
    match r {
        Ok(s) => Ok(s@),
        Err(Halt::Look(p)) => Err(HaltV::Look(p@)),
        Err(Halt::Fail(e)) => Err(HaltV::Fail(e@)),
    }
}

/// A path with its symlinks resolved.
pub open spec fn canonical_of(facts: Map<Seq<char>, Fact>, path: Seq<char>) -> Result<
    Seq<char>,
    HaltV<IoErrorV>,
> {
    if facts.contains_key(path) {
        match facts[path].canonical@ {
            ResolutionV::Path(p) => Ok(p),
            ResolutionV::Missing(m) => Err(HaltV::Fail(IoErrorV::Io(m))),
            ResolutionV::Failed(m) => Err(HaltV::Fail(IoErrorV::Io(m))),
        }
    } else {
        Err(HaltV::Look(path))
    }
}

pub(crate) fn canonical(facts: &Facts, path: &str) -> (r: Result<String, Halt<EvidenceIoError>>)
    ensures
        io_step(r) == canonical_of(facts@, path@),
{
    let key = path.to_owned();
    match facts.get(&key) {
        Some(fact) => match &fact.canonical {
            Resolution::Path(p) => Ok(p.clone()),
            Resolution::Missing(m) => Err(Halt::Fail(EvidenceIoError::Io(m.clone()))),
            Resolution::Failed(m) => Err(Halt::Fail(EvidenceIoError::Io(m.clone()))),
        },
        None => Err(Halt::Look(key)),
    }
}

/// The run root with its symlinks resolved.
pub open spec fn canonical_root(facts: Map<Seq<char>, Fact>, root: Seq<char>) -> Result<
    Seq<char>,
    HaltV<IoErrorV>,
> {
    match canonical_of(facts, root) {
        Err(HaltV::Fail(_)) => Err(HaltV::Fail(IoErrorV::InvalidRunRoot(root))),
        other => other,
    }
}

fn resolve_root(facts: &Facts, root: &str) -> (r: Result<String, Halt<EvidenceIoError>>)
    ensures
        io_step(r) == canonical_root(facts@, root@),
{
    match canonical(facts, root) {
        Ok(p) => Ok(p),
        Err(Halt::Look(p)) => Err(Halt::Look(p)),
        Err(Halt::Fail(_)) => Err(Halt::Fail(EvidenceIoError::InvalidRunRoot(root.to_owned()))),
    }
}

/// The first path of a descent that is a symlink stops it.
pub open spec fn descent(
    facts: Map<Seq<char>, Fact>,
    root: Seq<char>,
    cursor: Seq<char>,
    steps: Seq<PartV>,
) -> Result<(), HaltV<IoErrorV>>
    decreases steps.len(),
{
    if steps.len() == 0 {
        Ok(())
    } else {
        let next = joined(cursor, part_text(steps[0]));
        if !facts.contains_key(next) {
            Err(HaltV::Look(next))
        } else if facts[next].symlink {
            Err(HaltV::Fail(IoErrorV::SymlinkEscape(next, root)))
        } else {
            descent(facts, root, next, steps.drop_first())
        }
    }
}

pub(crate) fn descend(facts: &Facts, root: &str, below: &str) -> (r: Result<(), Halt<EvidenceIoError>>)
    ensures
        match r {
            Ok(_) => descent(facts@, root@, root@, parts_of(below@)) == Ok::<
                (),
                HaltV<IoErrorV>,
            >(()),
            Err(Halt::Look(p)) => descent(facts@, root@, root@, parts_of(below@)) == Err::<
                (),
                HaltV<IoErrorV>,
            >(HaltV::Look(p@)),
            Err(Halt::Fail(e)) => descent(facts@, root@, root@, parts_of(below@)) == Err::<
                (),
                HaltV<IoErrorV>,
            >(HaltV::Fail(e@)),
        },
{
    let steps = parts(below);
    let ghost all = parts_of(below@);
    let mut cursor = root.to_owned();
    let mut i: usize = 0;
    assert(all.skip(0) =~= all);
    while i < steps.len()
        invariant
            i <= steps@.len(),
            all == parts_of(below@),
            parts_v(steps@) == all,
            descent(facts@, root@, cursor@, all.skip(i as int)) == descent(
                facts@,
                root@,
                root@,
                all,
            ),
        decreases steps@.len() - i,
    {
        proof {
            assert(all.skip(i as int)[0] == steps@[i as int]@);
            assert(all.skip(i as int).drop_first() =~= all.skip(i as int + 1));
        }
        let step = steps[i].text();
        let next = join(cursor.as_str(), step.as_str());
        match facts.get(&next) {
            None => {
                return Err(Halt::Look(next));
            },
            Some(fact) => {
                if fact.symlink {
                    return Err(
                        Halt::Fail(
                            EvidenceIoError::SymlinkEscape { path: next, run_root: root.to_owned() },
                        ),
                    );
                }
            },
        }
        cursor = next;
        i = i + 1;
    }
    assert(all.skip(i as int) =~= Seq::<PartV>::empty());
    Ok(())
}

/// A path whose existing part has its symlinks resolved. What does not exist yet stays as it is
/// written.
pub open spec fn resolved(
    facts: Map<Seq<char>, Fact>,
    whole: Seq<char>,
    path: Seq<char>,
) -> Result<Seq<char>, HaltV<IoErrorV>>
    decreases path.len(),
    via resolved_decreases
{
    if !facts.contains_key(path) {
        Err(HaltV::Look(path))
    } else if facts[path].exists {
        canonical_of(facts, path)
    } else {
        match (last_name(path), parent_of(path)) {
            (Some(name), Some(up)) => match resolved(facts, whole, up) {
                Ok(base) => Ok(joined(base, name)),
                Err(h) => Err(h),
            },
            _ => Err(HaltV::Fail(IoErrorV::Io("no existing ancestor for "@ + whole))),
        }
    }
}

#[via_fn]
proof fn resolved_decreases(facts: Map<Seq<char>, Fact>, whole: Seq<char>, path: Seq<char>) {
    lemma_parent_shorter(path);
}

fn resolve_existing_ancestor(facts: &Facts, whole: &str, path: &str) -> (r: Result<
    String,
    Halt<EvidenceIoError>,
>)
    ensures
        io_step(r) == resolved(facts@, whole@, path@),
    decreases path@.len(),
{
    let key = path.to_owned();
    match facts.get(&key) {
        None => {
            return Err(Halt::Look(key));
        },
        Some(fact) => {
            if fact.exists {
                return canonical(facts, path);
            }
        },
    }
    proof {
        lemma_parent_shorter(path@);
    }
    match (file_name(path), parent(path)) {
        (Some(name), Some(up)) => match resolve_existing_ancestor(facts, whole, up.as_str()) {
            Ok(base) => Ok(join(base.as_str(), name.as_str())),
            Err(h) => Err(h),
        },
        _ => Err(
            Halt::Fail(EvidenceIoError::Io("no existing ancestor for ".to_owned().concat(whole))),
        ),
    }
}

/// A path below a run root, without a symlink on the way, where it really leads.
pub open spec fn confined(
    facts: Map<Seq<char>, Fact>,
    root: Seq<char>,
    path: Seq<char>,
) -> Result<Seq<char>, HaltV<IoErrorV>> {
    match remainder(path, root) {
        None => Err(HaltV::Fail(IoErrorV::OutsideRunRoot(path, root))),
        Some(below) => match descent(facts, root, root, parts_of(below)) {
            Err(h) => Err(h),
            Ok(_) => match resolved(facts, path, path) {
                Err(h) => Err(h),
                Ok(actual) => if begins(actual, root) {
                    Ok(actual)
                } else {
                    Err(HaltV::Fail(IoErrorV::SymlinkEscape(actual, root)))
                },
            },
        },
    }
}

fn confine(facts: &Facts, root: &str, path: &str) -> (r: Result<String, Halt<EvidenceIoError>>)
    ensures
        io_step(r) == confined(facts@, root@, path@),
{
    let below = match strip_prefix(path, root) {
        Some(below) => below,
        None => {
            return Err(
                Halt::Fail(
                    EvidenceIoError::OutsideRunRoot {
                        path: path.to_owned(),
                        run_root: root.to_owned(),
                    },
                ),
            );
        },
    };
    match descend(facts, root, below.as_str()) {
        Ok(_) => {},
        Err(h) => {
            return Err(h);
        },
    }
    let actual = match resolve_existing_ancestor(facts, path, path) {
        Ok(actual) => actual,
        Err(h) => {
            return Err(h);
        },
    };
    if starts_with(actual.as_str(), root) {
        Ok(actual)
    } else {
        Err(
            Halt::Fail(EvidenceIoError::SymlinkEscape { path: actual, run_root: root.to_owned() }),
        )
    }
}

/// The requested path in lexical normal form.
pub open spec fn requested_path(
    run_root: Seq<char>,
    path: Seq<char>,
    current_dir: Result<Seq<char>, Seq<char>>,
) -> Result<Seq<char>, IoErrorV> {
    let requested = if absolute(path) {
        path
    } else {
        joined(run_root, path)
    };
    let whole = if absolute(requested) {
        Ok(requested)
    } else {
        match current_dir {
            Ok(dir) => Ok(joined(dir, requested)),
            Err(m) => Err(IoErrorV::Io(m)),
        }
    };
    match whole {
        Err(e) => Err(e),
        Ok(whole) => match lexical(whole) {
            Some(t) => Ok(t),
            None => Err(IoErrorV::OutsideRunRoot(whole, Seq::empty())),
        },
    }
}

pub open spec fn text_result(r: Result<String, String>) -> Result<Seq<char>, Seq<char>> {
    match r {
        Ok(s) => Ok(s@),
        Err(s) => Err(s@),
    }
}

fn normalize_absolute(run_root: &str, path: &str, current_dir: &Result<String, String>) -> (r:
    Result<String, EvidenceIoError>)
    ensures
        match r {
            Ok(t) => requested_path(run_root@, path@, text_result(*current_dir)) == Ok::<
                Seq<char>,
                IoErrorV,
            >(t@),
            Err(e) => requested_path(run_root@, path@, text_result(*current_dir)) == Err::<
                Seq<char>,
                IoErrorV,
            >(e@),
        },
{
    let requested = if is_absolute(path) {
        path.to_owned()
    } else {
        join(run_root, path)
    };
    let whole = if is_absolute(requested.as_str()) {
        requested
    } else {
        match current_dir {
            Ok(dir) => join(dir.as_str(), requested.as_str()),
            Err(m) => {
                return Err(EvidenceIoError::Io(m.clone()));
            },
        }
    };
    match normalize(whole.as_str()) {
        Some(t) => Ok(t),
        None => {
            let none = String::new();
            assert(none@ =~= Seq::<char>::empty());
            Err(EvidenceIoError::OutsideRunRoot { path: whole, run_root: none })
        },
    }
}

/// The output path and run root that a request is granted.
pub open spec fn granted(
    facts: Map<Seq<char>, Fact>,
    repository_root: Seq<char>,
    run_root: Seq<char>,
    path: Seq<char>,
    current_dir: Result<Seq<char>, Seq<char>>,
) -> Result<(Seq<char>, Seq<char>), HaltV<IoErrorV>> {
    match canonical_of(facts, repository_root) {
        Err(h) => Err(h),
        Ok(repo) => match requested_path(run_root, path, current_dir) {
            Err(e) => Err(HaltV::Fail(e)),
            Ok(wanted) => if begins(wanted, joined(repo, "docs/perf/evidence"@)) {
                Err(HaltV::Fail(IoErrorV::TrackedEvidence(wanted)))
            } else if begins(wanted, repo) {
                Err(HaltV::Fail(IoErrorV::RepositoryOwned(wanted)))
            } else {
                match canonical_root(facts, run_root) {
                    Err(h) => Err(h),
                    Ok(root) => if !facts.contains_key(root) {
                        Err(HaltV::Look(root))
                    } else if !facts[root].directory || begins(root, repo) {
                        Err(HaltV::Fail(IoErrorV::InvalidRunRoot(root)))
                    } else {
                        match confined(facts, root, wanted) {
                            Err(h) => Err(h),
                            Ok(actual) => Ok((actual, root)),
                        }
                    },
                }
            },
        },
    }
}

/// What a request is granted lies below the run root, and the run root is a directory outside the
/// repository.
pub proof fn law_granted_output_is_confined(
    facts: Map<Seq<char>, Fact>,
    repository_root: Seq<char>,
    run_root: Seq<char>,
    path: Seq<char>,
    current_dir: Result<Seq<char>, Seq<char>>,
)
    requires
        granted(facts, repository_root, run_root, path, current_dir) is Ok,
    ensures
        ({
            let (actual, root) = granted(facts, repository_root, run_root, path, current_dir)->Ok_0;
            &&& begins(actual, root)
            &&& facts[root].directory
            &&& canonical_of(facts, run_root) == Ok::<Seq<char>, HaltV<IoErrorV>>(root)
            &&& !begins(root, canonical_of(facts, repository_root)->Ok_0)
        }),
{
}

/// What is seen of one file system. A path resolves to an absolute one that resolves to itself; such a
/// one stands, with every directory above it; and below it whatever names reach without a symlink
/// resolves to itself.
pub open spec fn of_one_system(facts: Map<Seq<char>, Fact>) -> bool {
    &&& forall|p: Seq<char>|
        (#[trigger] canonical_of(facts, p)) is Ok ==> {
            let c = canonical_of(facts, p)->Ok_0;
            &&& absolute(c)
            &&& facts.contains_key(c) ==> own_place(facts, c)
        }
    &&& forall|dir: Seq<char>, p: Seq<char>|
        #![trigger own_place(facts, dir), begins(dir, p)]
        own_place(facts, dir) && facts.contains_key(p) && absolute(p) && begins(dir, p)
            ==> facts[p].exists
    &&& forall|dir: Seq<char>, p: Seq<char>|
        #![trigger own_place(facts, dir), begins(p, dir)]
        own_place(facts, dir) && reached_plainly(facts, dir, p) && canonical_of(facts, p) is Ok
            ==> parts_of(canonical_of(facts, p)->Ok_0) == parts_of(p)
}

/// The path resolves to itself.
pub open spec fn own_place(facts: Map<Seq<char>, Fact>, path: Seq<char>) -> bool {
    canonical_of(facts, path) == Ok::<Seq<char>, HaltV<IoErrorV>>(path)
}

/// The path leads from a directory through names alone, none of them a symlink.
pub open spec fn reached_plainly(
    facts: Map<Seq<char>, Fact>,
    dir: Seq<char>,
    path: Seq<char>,
) -> bool {
    let n = parts_of(dir).len() as int;
    &&& begins(path, dir)
    &&& forall|i: int| n <= i < parts_of(path).len() ==> (#[trigger] parts_of(path)[i]) is Name
    &&& descent(facts, dir, dir, parts_of(path).skip(n)) is Ok
}

proof fn lemma_descent_shorter(
    facts: Map<Seq<char>, Fact>,
    root: Seq<char>,
    cursor: Seq<char>,
    steps: Seq<PartV>,
)
    requires
        steps.len() > 0,
        descent(facts, root, cursor, steps) is Ok,
    ensures
        descent(facts, root, cursor, steps.drop_last()) is Ok,
    decreases steps.len(),
{
    if steps.len() > 1 {
        let next = joined(cursor, part_text(steps[0]));
        lemma_descent_shorter(facts, root, next, steps.drop_first());
        assert(steps.drop_last().drop_first() =~= steps.drop_first().drop_last());
        assert(steps.drop_last()[0] == steps[0]);
    }
}

/// What does not exist yet is resolved to where it is written.
proof fn lemma_resolved_in_place(
    facts: Map<Seq<char>, Fact>,
    root: Seq<char>,
    whole: Seq<char>,
    path: Seq<char>,
)
    requires
        of_one_system(facts),
        own_place(facts, root),
        absolute(root),
        absolute(path),
        reached_plainly(facts, root, path),
        resolved(facts, whole, path) is Ok,
    ensures
        parts_of(resolved(facts, whole, path)->Ok_0) == parts_of(path),
    decreases path.len(),
{
    if !facts[path].exists {
        let n = parts_of(root).len() as int;
        let all = parts_of(path);
        assert(!begins(root, path));
        assert(all.len() > n) by {
            if all.len() == n {
                assert(all.take(n) =~= all);
                assert(parts_of(root).take(n) =~= parts_of(root));
            }
        }
        let name = last_name(path)->Some_0;
        let up = parent_of(path)->Some_0;
        lemma_parent_shorter(path);
        lemma_parent_parts(path);
        assert(n > 0);
        lemma_part_names(path, 0);
        lemma_part_names(path, all.len() - 1);
        assert(parts_of(up)[0] == all[0]);
        lemma_part_names(up, 0);
        assert(parts_of(up).take(n) =~= all.take(n));
        assert(parts_of(up).skip(n) =~= all.skip(n).drop_last());
        lemma_descent_shorter(facts, root, root, all.skip(n));
        assert forall|i: int| n <= i < parts_of(up).len() implies (
        #[trigger] parts_of(up)[i]) is Name by {
            assert(parts_of(up)[i] == all[i]);
        }
        lemma_resolved_in_place(facts, root, whole, up);
        lemma_name_below(resolved(facts, whole, up)->Ok_0, name);
        assert(all =~= parts_of(up).push(all.last()));
    }
}

/// In one file system what a request is granted is the very place that it asks for, and lies outside the
/// repository.
pub proof fn law_granted_output_is_outside_the_repository(
    facts: Map<Seq<char>, Fact>,
    repository_root: Seq<char>,
    run_root: Seq<char>,
    path: Seq<char>,
    current_dir: Result<Seq<char>, Seq<char>>,
)
    requires
        of_one_system(facts),
        granted(facts, repository_root, run_root, path, current_dir) is Ok,
    ensures
        ({
            let (actual, root) = granted(facts, repository_root, run_root, path, current_dir)->Ok_0;
            &&& parts_of(actual) == parts_of(requested_path(run_root, path, current_dir)->Ok_0)
            &&& !begins(actual, canonical_of(facts, repository_root)->Ok_0)
        }),
{
    let (actual, root) = granted(facts, repository_root, run_root, path, current_dir)->Ok_0;
    let wanted = requested_path(run_root, path, current_dir)->Ok_0;
    let requested = if absolute(path) {
        path
    } else {
        joined(run_root, path)
    };
    let whole = if absolute(requested) {
        requested
    } else {
        joined(current_dir->Ok_0, requested)
    };
    assert(lexical(whole) == Some(wanted));
    law_normal_forms_are_plain(whole);
    assert(canonical_of(facts, run_root) is Ok);
    lemma_remainder_parts(wanted, root);
    assert(begins(wanted, root));
    assert(parts_of(root).len() > 0);
    lemma_resolved_in_place(facts, root, wanted, wanted);
}

/// A request for a path of the repository is refused, whatever else is known.
pub proof fn law_repository_is_never_granted(
    facts: Map<Seq<char>, Fact>,
    repository_root: Seq<char>,
    run_root: Seq<char>,
    path: Seq<char>,
    current_dir: Result<Seq<char>, Seq<char>>,
    repo: Seq<char>,
    wanted: Seq<char>,
)
    requires
        canonical_of(facts, repository_root) == Ok::<Seq<char>, HaltV<IoErrorV>>(repo),
        requested_path(run_root, path, current_dir) == Ok::<Seq<char>, IoErrorV>(wanted),
        begins(wanted, repo),
    ensures
        granted(facts, repository_root, run_root, path, current_dir) == Err::<
            (Seq<char>, Seq<char>),
            HaltV<IoErrorV>,
        >(
            HaltV::Fail(
                if begins(wanted, joined(repo, "docs/perf/evidence"@)) {
                    IoErrorV::TrackedEvidence(wanted)
                } else {
                    IoErrorV::RepositoryOwned(wanted)
                },
            ),
        ),
{
}

/// An input resolves to the path that it really has.
pub open spec fn input_path(path: Seq<char>, found: ResolutionV) -> Result<Seq<char>, IoErrorV> {
    match found {
        ResolutionV::Path(p) => Ok(p),
        ResolutionV::Missing(_) => Err(IoErrorV::MissingInput(path)),
        ResolutionV::Failed(m) => Err(IoErrorV::Io(m)),
    }
}

fn canonical_input(path: &str, found: Resolution) -> (r: Result<String, EvidenceIoError>)
    ensures
        match r {
            Ok(p) => input_path(path@, found@) == Ok::<Seq<char>, IoErrorV>(p@),
            Err(e) => input_path(path@, found@) == Err::<Seq<char>, IoErrorV>(e@),
        },
{
    match found {
        Resolution::Path(p) => Ok(p),
        Resolution::Missing(_) => Err(EvidenceIoError::MissingInput(path.to_owned())),
        Resolution::Failed(m) => Err(EvidenceIoError::Io(m)),
    }
}

/// Only reads are authorized.
pub open spec fn read_only(
    ownership: Seq<char>,
    path: Seq<char>,
    operation: EvidenceOperation,
) -> Result<Seq<char>, IoErrorV> {
    if operation is Read {
        Ok(path)
    } else {
        Err(IoErrorV::OperationDenied(ownership, operation))
    }
}

fn authorize_read_only<'a>(
    ownership: &'static str,
    path: &'a String,
    operation: EvidenceOperation,
) -> (r: Result<&'a String, EvidenceIoError>)
    ensures
        match r {
            Ok(p) => p@ == path@ && operation is Read,
            Err(e) => read_only(ownership@, path@, operation) == Err::<Seq<char>, IoErrorV>(e@),
        },
{
    match operation {
        EvidenceOperation::Read => Ok(path),
        EvidenceOperation::Write => Err(EvidenceIoError::OperationDenied { ownership, operation }),
        EvidenceOperation::Delete => Err(EvidenceIoError::OperationDenied { ownership, operation }),
    }
}

/// Keeps the classes of evidence to those of this module.
pub trait Sealed {

}

/// A typed evidence input whose ownership authorizes reads.
pub trait ReadableEvidence: Sealed {
    /// The path that may be read.
    spec fn readable(&self, facts: Map<Seq<char>, Fact>) -> Result<Seq<char>, HaltV<IoErrorV>>;

    fn readable_path(&self, facts: &Facts) -> (r: Result<&String, Halt<EvidenceIoError>>)
        ensures
            match r {
                Ok(p) => self.readable(facts@) == Ok::<Seq<char>, HaltV<IoErrorV>>(p@),
                Err(Halt::Look(p)) => self.readable(facts@) == Err::<Seq<char>, HaltV<IoErrorV>>(
                    HaltV::Look(p@),
                ),
                Err(Halt::Fail(e)) => self.readable(facts@) == Err::<Seq<char>, HaltV<IoErrorV>>(
                    HaltV::Fail(e@),
                ),
            },
    ;
}

/// Immutable input given to a deterministic test.
pub struct Fixture {
    path: String,
}

impl Fixture {
    pub closed spec fn view(&self) -> Seq<char> {
        self.path@
    }

    /// An input that exists, by the path it resolves to.
    pub fn new(path: &str, found: Resolution) -> (r: Result<Fixture, EvidenceIoError>)
        ensures
            match r {
                Ok(f) => input_path(path@, found@) == Ok::<Seq<char>, IoErrorV>(f@),
                Err(e) => input_path(path@, found@) == Err::<Seq<char>, IoErrorV>(e@),
            },
    {
        match canonical_input(path, found) {
            Ok(path) => Ok(Fixture { path }),
            Err(e) => Err(e),
        }
    }

    pub fn path(&self) -> (r: &String)
        ensures
            r@ == self@,
    {
        &self.path
    }

    pub fn authorize(&self, operation: EvidenceOperation) -> (r: Result<&String, EvidenceIoError>)
        ensures
            match r {
                Ok(p) => read_only("Fixture"@, self@, operation) == Ok::<Seq<char>, IoErrorV>(p@),
                Err(e) => read_only("Fixture"@, self@, operation) == Err::<Seq<char>, IoErrorV>(e@),
            },
    {
        authorize_read_only("Fixture", &self.path, operation)
    }
}

impl Sealed for Fixture {

}

impl ReadableEvidence for Fixture {
    open spec fn readable(&self, facts: Map<Seq<char>, Fact>) -> Result<
        Seq<char>,
        HaltV<IoErrorV>,
    > {
        Ok(self@)
    }

    fn readable_path(&self, facts: &Facts) -> (r: Result<&String, Halt<EvidenceIoError>>) {
        match self.authorize(EvidenceOperation::Read) {
            Ok(p) => Ok(p),
            Err(e) => Err(Halt::Fail(e)),
        }
    }
}

/// Immutable evidence promoted from a run that was verified on its own.
pub struct Promoted {
    path: String,
}

impl Promoted {
    pub closed spec fn view(&self) -> Seq<char> {
        self.path@
    }

    /// An input that exists, by the path it resolves to.
    pub fn new(path: &str, found: Resolution) -> (r: Result<Promoted, EvidenceIoError>)
        ensures
            match r {
                Ok(f) => input_path(path@, found@) == Ok::<Seq<char>, IoErrorV>(f@),
                Err(e) => input_path(path@, found@) == Err::<Seq<char>, IoErrorV>(e@),
            },
    {
        match canonical_input(path, found) {
            Ok(path) => Ok(Promoted { path }),
            Err(e) => Err(e),
        }
    }

    pub fn path(&self) -> (r: &String)
        ensures
            r@ == self@,
    {
        &self.path
    }

    pub fn authorize(&self, operation: EvidenceOperation) -> (r: Result<&String, EvidenceIoError>)
        ensures
            match r {
                Ok(p) => read_only("Promoted"@, self@, operation) == Ok::<Seq<char>, IoErrorV>(p@),
                Err(e) => read_only("Promoted"@, self@, operation) == Err::<Seq<char>, IoErrorV>(
                    e@,
                ),
            },
    {
        authorize_read_only("Promoted", &self.path, operation)
    }
}

impl Sealed for Promoted {

}

impl ReadableEvidence for Promoted {
    open spec fn readable(&self, facts: Map<Seq<char>, Fact>) -> Result<
        Seq<char>,
        HaltV<IoErrorV>,
    > {
        Ok(self@)
    }

    fn readable_path(&self, facts: &Facts) -> (r: Result<&String, Halt<EvidenceIoError>>) {
        match self.authorize(EvidenceOperation::Read) {
            Ok(p) => Ok(p),
            Err(e) => Err(Halt::Fail(e)),
        }
    }
}

/// An output that stays below one external run root.
pub struct RunOwned {
    path: String,
    run_root: String,
}

/// Whether the authority over an output still holds.
pub open spec fn still_owned(
    facts: Map<Seq<char>, Fact>,
    path: Seq<char>,
    run_root: Seq<char>,
) -> Result<Seq<char>, HaltV<IoErrorV>> {
    match canonical_root(facts, run_root) {
        Err(h) => Err(h),
        Ok(now) => if parts_of(now) != parts_of(run_root) {
            Err(HaltV::Fail(IoErrorV::InvalidRunRoot(now)))
        } else if !facts.contains_key(now) {
            Err(HaltV::Look(now))
        } else if !facts[now].directory {
            Err(HaltV::Fail(IoErrorV::InvalidRunRoot(now)))
        } else {
            match confined(facts, run_root, path) {
                Err(h) => Err(h),
                Ok(_) => Ok(path),
            }
        },
    }
}

impl RunOwned {
    pub closed spec fn view(&self) -> (Seq<char>, Seq<char>) {
        (self.path@, self.run_root@)
    }

    /// Validates `path` without creating it.
    ///
    /// Relative paths are resolved below `run_root`. Existing ancestors are resolved so that a symlink
    /// cannot redirect a child that is not there yet.
    pub fn new(
        repository_root: &str,
        run_root: &str,
        path: &str,
        current_dir: &Result<String, String>,
        facts: &Facts,
    ) -> (r: Result<RunOwned, Halt<EvidenceIoError>>)
        ensures
            match r {
                Ok(o) => granted(
                    facts@,
                    repository_root@,
                    run_root@,
                    path@,
                    text_result(*current_dir),
                ) == Ok::<(Seq<char>, Seq<char>), HaltV<IoErrorV>>(o@),
                Err(Halt::Look(p)) => granted(
                    facts@,
                    repository_root@,
                    run_root@,
                    path@,
                    text_result(*current_dir),
                ) == Err::<(Seq<char>, Seq<char>), HaltV<IoErrorV>>(HaltV::Look(p@)),
                Err(Halt::Fail(e)) => granted(
                    facts@,
                    repository_root@,
                    run_root@,
                    path@,
                    text_result(*current_dir),
                ) == Err::<(Seq<char>, Seq<char>), HaltV<IoErrorV>>(HaltV::Fail(e@)),
            },
    {
        let repo = match canonical(facts, repository_root) {
            Ok(p) => p,
            Err(h) => {
                return Err(h);
            },
        };
        let wanted = match normalize_absolute(run_root, path, current_dir) {
            Ok(t) => t,
            Err(e) => {
                return Err(Halt::Fail(e));
            },
        };
        let kept = join(repo.as_str(), "docs/perf/evidence");
        if starts_with(wanted.as_str(), kept.as_str()) {
            return Err(Halt::Fail(EvidenceIoError::TrackedEvidence(wanted)));
        }
        if starts_with(wanted.as_str(), repo.as_str()) {
            return Err(Halt::Fail(EvidenceIoError::RepositoryOwned(wanted)));
        }
        let root = match resolve_root(facts, run_root) {
            Ok(p) => p,
            Err(h) => {
                return Err(h);
            },
        };
        let directory = match facts.get(&root) {
            Some(fact) => fact.directory,
            None => {
                return Err(Halt::Look(root));
            },
        };
        if !directory || starts_with(root.as_str(), repo.as_str()) {
            return Err(Halt::Fail(EvidenceIoError::InvalidRunRoot(root)));
        }
        match confine(facts, root.as_str(), wanted.as_str()) {
            Ok(actual) => Ok(RunOwned { path: actual, run_root: root }),
            Err(h) => Err(h),
        }
    }

    pub fn path(&self) -> (r: &String)
        ensures
            r@ == self@.0,
    {
        &self.path
    }

    pub fn run_root(&self) -> (r: &String)
        ensures
            r@ == self@.1,
    {
        &self.run_root
    }

    /// Checks once more that the output stays below its run root, and gives its path.
    pub fn authorize(&self, _operation: EvidenceOperation, facts: &Facts) -> (r: Result<
        &String,
        Halt<EvidenceIoError>,
    >)
        ensures
            match r {
                Ok(p) => still_owned(facts@, self@.0, self@.1) == Ok::<Seq<char>, HaltV<IoErrorV>>(
                    p@,
                ),
                Err(Halt::Look(p)) => still_owned(facts@, self@.0, self@.1) == Err::<
                    Seq<char>,
                    HaltV<IoErrorV>,
                >(HaltV::Look(p@)),
                Err(Halt::Fail(e)) => still_owned(facts@, self@.0, self@.1) == Err::<
                    Seq<char>,
                    HaltV<IoErrorV>,
                >(HaltV::Fail(e@)),
            },
    {
        let now = match resolve_root(facts, self.run_root.as_str()) {
            Ok(p) => p,
            Err(h) => {
                return Err(h);
            },
        };
        if !same_path(now.as_str(), self.run_root.as_str()) {
            return Err(Halt::Fail(EvidenceIoError::InvalidRunRoot(now)));
        }
        let directory = match facts.get(&now) {
            Some(fact) => fact.directory,
            None => {
                return Err(Halt::Look(now));
            },
        };
        if !directory {
            return Err(Halt::Fail(EvidenceIoError::InvalidRunRoot(now)));
        }
        match confine(facts, self.run_root.as_str(), self.path.as_str()) {
            Ok(_) => Ok(&self.path),
            Err(h) => Err(h),
        }
    }
}

impl Sealed for RunOwned {

}

impl ReadableEvidence for RunOwned {
    open spec fn readable(&self, facts: Map<Seq<char>, Fact>) -> Result<
        Seq<char>,
        HaltV<IoErrorV>,
    > {
        still_owned(facts, self@.0, self@.1)
    }

    fn readable_path(&self, facts: &Facts) -> (r: Result<&String, Halt<EvidenceIoError>>) {
        self.authorize(EvidenceOperation::Read, facts)
    }
}

} // verus!
