use fireweed::evidence_io::{Fact, Facts, Halt, Promoted, Resolution};
use fireweed::order::OrdMap;
use fireweed::source_boundary::{SourceBoundary, SourceBoundaryError, SourceInput, SourceInputKind};

fn facts(files: &[&str]) -> Facts {
    let mut facts: Facts = OrdMap::new();
    for dir in ["/t/source", "/t/source/evidence", "/t/outside"] {
        facts.insert(
            dir.to_string(),
            Fact { symlink: false, exists: true, directory: true, canonical: Resolution::Path(dir.to_string()) },
        );
    }
    for file in files {
        facts.insert(
            file.to_string(),
            Fact { symlink: false, exists: true, directory: false, canonical: Resolution::Path(file.to_string()) },
        );
    }
    facts
}

fn boundary(facts: &Facts) -> SourceBoundary {
    SourceBoundary::new("/t/source", "/t/source/evidence", facts).ok().unwrap()
}

fn promoted(path: &str) -> Promoted {
    Promoted::new(path, Resolution::Path(path.to_string())).ok().unwrap()
}

const KINDS: [SourceInputKind; 3] =
    [SourceInputKind::Source, SourceInputKind::Executable, SourceInputKind::BuildContext];

#[test]
fn accepts_source_only_inputs() {
    let facts = facts(&["/t/source/src/lib.rs", "/t/source/bin/verifier", "/t/source/Cargo.toml"]);
    let inputs = vec![
        SourceInput::new(SourceInputKind::Source, "/t/source/src/lib.rs".to_string()),
        SourceInput::new(SourceInputKind::Executable, "/t/source/bin/verifier".to_string()),
        SourceInput::new(SourceInputKind::BuildContext, "/t/source/Cargo.toml".to_string()),
    ];
    assert!(boundary(&facts).validate(&inputs, &vec![], &facts).is_ok());
}

#[test]
fn rejects_source_classes_in_the_evidence_root_even_when_named_in_allowlist() {
    let evidence = "/t/source/evidence/tracked.jsonl";
    let facts = facts(&[evidence]);
    for kind in KINDS {
        let boundary = boundary(&facts).with_promoted_allowlist(&vec![evidence.to_string()], &facts).ok().unwrap();
        let error = boundary
            .validate(&vec![SourceInput::new(kind, evidence.to_string())], &vec![], &facts)
            .err()
            .unwrap();
        assert!(matches!(
            error,
            Halt::Fail(SourceBoundaryError::EvidenceOverlap { kind: rejected, .. }) if rejected == kind
        ));
    }
}

#[test]
fn rejects_source_classes_outside_the_source_root() {
    let facts = facts(&["/t/outside/input"]);
    for kind in KINDS {
        assert!(matches!(
            boundary(&facts).validate(&vec![SourceInput::new(kind, "/t/outside/input".to_string())], &vec![], &facts),
            Err(Halt::Fail(SourceBoundaryError::OutsideSourceRoot { kind: rejected, .. })) if rejected == kind
        ));
    }
}

#[test]
fn empty_default_rejects_promoted_data() {
    let facts = facts(&["/t/source/evidence/promoted.jsonl"]);
    let boundary = boundary(&facts);
    assert!(boundary.promoted_allowlist_is_empty());
    assert!(matches!(
        boundary.validate(&vec![], &vec![promoted("/t/source/evidence/promoted.jsonl")], &facts),
        Err(Halt::Fail(SourceBoundaryError::PromotedDataNotAllowlisted(_)))
    ));
}

#[test]
fn exact_allowlist_entry_accepts_only_the_named_promoted_data() {
    let accepted = "/t/source/evidence/accepted.jsonl";
    let rejected = "/t/source/evidence/rejected.jsonl";
    let facts = facts(&[accepted, rejected]);
    let boundary = boundary(&facts).with_promoted_allowlist(&vec![accepted.to_string()], &facts).ok().unwrap();
    assert!(boundary.validate(&vec![], &vec![promoted(accepted)], &facts).is_ok());
    assert!(matches!(
        boundary.validate(&vec![], &vec![promoted(rejected)], &facts),
        Err(Halt::Fail(SourceBoundaryError::PromotedDataNotAllowlisted(_)))
    ));
}

#[test]
fn allowlist_cannot_name_non_evidence_data() {
    let facts = facts(&["/t/source/src/lib.rs"]);
    assert!(matches!(
        boundary(&facts).with_promoted_allowlist(&vec!["/t/source/src/lib.rs".to_string()], &facts),
        Err(Halt::Fail(SourceBoundaryError::AllowlistEntryOutsideEvidenceRoot(_)))
    ));
}

#[test]
fn boundary_messages_name_what_was_refused() {
    let facts = facts(&["/t/file"]);
    let error = match SourceBoundary::new("/t/file", "/t/source/evidence", &facts) {
        Err(Halt::Fail(e)) => e.message(),
        _ => panic!("a file is no root"),
    };
    assert_eq!(error, "source root is not a directory: /t/file");
    assert!(matches!(
        SourceBoundary::new("/t/nowhere", "/t/source/evidence", &facts),
        Err(Halt::Look(p)) if p == "/t/nowhere"
    ));
    let outside = SourceBoundaryError::OutsideSourceRoot { kind: SourceInputKind::Executable, path: "/x".to_string() };
    assert_eq!(outside.message(), "Executable input originates outside the source root: /x");
    let input = SourceInput::new(SourceInputKind::Source, "p".to_string());
    assert_eq!(input.path(), "p");
    assert_eq!(input.kind(), SourceInputKind::Source);
}
