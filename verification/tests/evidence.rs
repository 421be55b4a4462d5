use fireweed::evidence_io::{
    EvidenceIoError, EvidenceOperation, Fact, Facts, Fixture, Halt, Promoted, ReadableEvidence, Resolution, RunOwned,
};
use fireweed::order::OrdMap;

fn here(path: &str) -> Fact {
    Fact { symlink: false, exists: true, directory: true, canonical: Resolution::Path(path.to_string()) }
}

fn file(path: &str) -> Fact {
    Fact { symlink: false, exists: true, directory: false, canonical: Resolution::Path(path.to_string()) }
}

fn absent() -> Fact {
    Fact {
        symlink: false,
        exists: false,
        directory: false,
        canonical: Resolution::Missing("No such file or directory".to_string()),
    }
}

fn link(target: &str) -> Fact {
    Fact { symlink: true, exists: true, directory: true, canonical: Resolution::Path(target.to_string()) }
}

/// A repository at /repo and a run root at /tmp/run; nothing else exists.
fn tree() -> Vec<(String, Fact)> {
    vec![
        ("/repo".to_string(), here("/repo")),
        ("/tmp/run".to_string(), here("/tmp/run")),
        ("/tmp".to_string(), here("/tmp")),
        ("/".to_string(), here("/")),
        ("/tmp/outside".to_string(), here("/tmp/outside")),
    ]
}

fn seen(tree: Vec<(String, Fact)>) -> Facts {
    let mut facts: Facts = OrdMap::new();
    for (path, fact) in tree {
        facts.insert(path, fact);
    }
    facts
}

/// Answers each request for a fact with "nothing there" until the rule decides.
fn own(mut facts: Facts, path: &str) -> (Result<RunOwned, EvidenceIoError>, Facts) {
    loop {
        let outcome = RunOwned::new("/repo", "/tmp/run", path, &Ok("/work".to_string()), &facts);
        match outcome {
            Ok(owned) => return (Ok(owned), facts),
            Err(Halt::Fail(error)) => return (Err(error), facts),
            Err(Halt::Look(wanted)) => facts.insert(wanted, absent()),
        }
    }
}

fn authorize(owned: &RunOwned, operation: EvidenceOperation, mut facts: Facts) -> Result<String, EvidenceIoError> {
    loop {
        let outcome = match owned.authorize(operation, &facts) {
            Ok(path) => Ok(path.clone()),
            Err(halt) => Err(halt),
        };
        match outcome {
            Ok(path) => return Ok(path),
            Err(Halt::Fail(error)) => return Err(error),
            Err(Halt::Look(wanted)) => facts.insert(wanted, absent()),
        }
    }
}

#[test]
fn accepts_not_yet_created_external_descendant() {
    let (owned, facts) = own(seen(tree()), "nested/result.jsonl");
    let owned = owned.ok().unwrap();
    assert!(owned.path().starts_with("/tmp/run/"));
    assert_eq!(owned.path(), "/tmp/run/nested/result.jsonl");
    assert_eq!(owned.run_root(), "/tmp/run");
    assert_eq!(&authorize(&owned, EvidenceOperation::Write, facts).ok().unwrap(), owned.path());
    let (_, facts) = own(seen(tree()), "nested/result.jsonl");
    assert_eq!(&authorize(&owned, EvidenceOperation::Delete, facts).ok().unwrap(), owned.path());
}

#[test]
fn rejects_repository_and_tracked_evidence_targets() {
    assert!(matches!(
        own(seen(tree()), "/repo/docs/perf/evidence/new.jsonl").0,
        Err(EvidenceIoError::TrackedEvidence(_))
    ));
    assert!(matches!(
        own(seen(tree()), "/repo/target/not-run-owned.jsonl").0,
        Err(EvidenceIoError::RepositoryOwned(_))
    ));
}

#[test]
fn rejects_parent_traversal() {
    assert!(matches!(own(seen(tree()), "../escape.jsonl").0, Err(EvidenceIoError::OutsideRunRoot { .. })));
}

#[test]
fn rejects_symlink_escape() {
    let mut with_link = tree();
    with_link.push(("/tmp/run/redirect".to_string(), link("/tmp/outside")));
    assert!(matches!(
        own(seen(with_link), "/tmp/run/redirect/result.jsonl").0,
        Err(EvidenceIoError::SymlinkEscape { .. })
    ));

    let (late, _) = own(seen(tree()), "late/result.jsonl");
    let late = late.ok().unwrap();
    for operation in [EvidenceOperation::Write, EvidenceOperation::Delete] {
        let mut now = tree();
        now.push(("/tmp/run/late".to_string(), link("/tmp/outside")));
        assert!(matches!(authorize(&late, operation, seen(now)), Err(EvidenceIoError::SymlinkEscape { .. })));
    }
}

#[test]
fn fixture_and_promoted_are_read_only() {
    let fixture = Fixture::new("input.jsonl", Resolution::Path("/tmp/input.jsonl".to_string())).ok().unwrap();
    let promoted = Promoted::new("input.jsonl", Resolution::Path("/tmp/input.jsonl".to_string())).ok().unwrap();

    assert!(fixture.authorize(EvidenceOperation::Read).is_ok());
    assert!(promoted.authorize(EvidenceOperation::Read).is_ok());
    for operation in [EvidenceOperation::Write, EvidenceOperation::Delete] {
        assert!(matches!(
            fixture.authorize(operation),
            Err(EvidenceIoError::OperationDenied { ownership: "Fixture", operation: denied }) if denied == operation
        ));
        assert!(matches!(
            promoted.authorize(operation),
            Err(EvidenceIoError::OperationDenied { ownership: "Promoted", operation: denied }) if denied == operation
        ));
    }
    let facts = seen(tree());
    assert_eq!(fixture.readable_path(&facts).ok().unwrap(), "/tmp/input.jsonl");
    assert_eq!(promoted.path(), "/tmp/input.jsonl");
}

#[test]
fn inputs_fail_by_what_stands_there() {
    let missing = Fixture::new("gone", Resolution::Missing("not found".to_string())).err().unwrap();
    assert!(matches!(&missing, EvidenceIoError::MissingInput(p) if p == "gone"));
    assert_eq!(missing.message(), "evidence input does not exist: gone");
    let failed = Promoted::new("gone", Resolution::Failed("denied".to_string())).err().unwrap();
    assert_eq!(failed.message(), "evidence path I/O failed: denied");
}

#[test]
fn run_roots_must_be_external_directories() {
    let mut odd = tree();
    odd[1].1 = file("/tmp/run");
    let error = own(seen(odd), "x").0.err().unwrap();
    assert_eq!(error.message(), "run-owned root must be an existing external directory: /tmp/run");
    let mut inside = tree();
    inside[1].1 = here("/repo/run");
    inside.push(("/repo/run".to_string(), here("/repo/run")));
    assert!(matches!(own(seen(inside), "x").0, Err(EvidenceIoError::InvalidRunRoot(p)) if p == "/repo/run"));
    let mut gone = tree();
    gone[1].1 = absent();
    assert!(matches!(own(seen(gone), "x").0, Err(EvidenceIoError::InvalidRunRoot(p)) if p == "/tmp/run"));
    let mut broken = tree();
    broken[0].1 = absent();
    assert_eq!(
        own(seen(broken), "x").0.err().unwrap().message(),
        "evidence path I/O failed: No such file or directory"
    );
}

#[test]
fn climbing_above_the_root_is_outside() {
    let error = own(seen(tree()), "/../x").0.err().unwrap();
    assert_eq!(error.message(), "run-owned output /../x is outside ");
}
