use fireweed::attestation::{
    bind_paths, bundle_inputs, bundle_paths, is_full_lower_hex_commit, is_safe_relative_path, is_sha256,
    looks_like_utc_timestamp, new_attestation, verify_attestation, verify_attestation_with_evidence_root,
    AttestationError, DigestBinding,
    EvidenceAttestation, InputBinding, InputKind, ManualException, Need, Observed, Verdict,
};
use fireweed::digest::{digest_tree, Names, Tree};
use fireweed::evidence_io::{Fact, Facts, Resolution};
use fireweed::order::OrdMap;
use fireweed::transaction::{
    evidence_lines, verify_transaction_evidence, EvidenceFile, EvidenceLine, TransactionEvidenceRow, AC_1, AC_2, AC_3,
    AC_6, POSTGRES_PROFILE, SQLITE_PROFILE,
};
use sha2::{Digest, Sha256};

const COMMIT: &str = "0123456789abcdef0123456789abcdef01234567";

fn frame(name: &str, contents: &[u8]) -> Vec<u8> {
    let mut out = b"file\0".to_vec();
    out.extend((name.len() as u64).to_le_bytes());
    out.extend(name.as_bytes());
    out.extend((contents.len() as u64).to_le_bytes());
    out.extend(contents);
    out
}

fn hex(data: &[u8]) -> String {
    data.iter().map(|b| format!("{b:02x}")).collect()
}

#[test]
fn digests_are_of_framed_names_and_contents() {
    let file = digest_tree(&Tree::File(b"abc".to_vec())).unwrap();
    assert_eq!(file, hex(&Sha256::digest(frame(".", b"abc"))));

    let mut files: OrdMap<Names, Vec<u8>> = OrdMap::new();
    files.insert(Names { names: vec!["b".to_string()] }, b"2".to_vec());
    files.insert(Names { names: vec!["a".to_string(), "c".to_string()] }, b"1".to_vec());
    let mut snapshot = frame("a/c", b"1");
    snapshot.extend(frame("b", b"2"));
    assert_eq!(digest_tree(&Tree::Directory(files)).unwrap(), hex(&Sha256::digest(snapshot)));

    assert_eq!(digest_tree(&Tree::Symlink).unwrap_err(), "symlinks are not accepted in attested inputs");
    assert_eq!(digest_tree(&Tree::Other).unwrap_err(), "path is neither a regular file nor a directory");
    assert_eq!(digest_tree(&Tree::Unreadable("gone".to_string())).unwrap_err(), "gone");
}

fn sha(text: &str) -> String {
    hex(&Sha256::digest(text.as_bytes()))
}

fn manifest() -> EvidenceAttestation {
    let kinds = [InputKind::ProductCode, InputKind::Harness, InputKind::Config, InputKind::DependencyLock];
    new_attestation(
        "v1",
        COMMIT,
        "2026-01-02T03:04:05Z",
        "2026-01-02T03:04:06Z",
        vec![DigestBinding { path: "evidence.json".to_string(), sha256: sha("evidence.json") }],
        kinds
            .iter()
            .map(|k| InputBinding { kind: *k, path: k.name().to_string(), sha256: sha(k.name()) })
            .collect(),
    )
}

/// A repository in which every path is a file whose digest is that of its name.
fn observed(m: &EvidenceAttestation) -> Observed {
    let mut seen = Observed { facts: OrdMap::new(), digests: OrdMap::new() };
    loop {
        match verify_attestation(m, &seen, "/repo", "v1", COMMIT) {
            Err(Verdict::Need(Need::Look(p))) => {
                let fact = Fact {
                    symlink: false,
                    exists: true,
                    directory: false,
                    canonical: Resolution::Path(p.clone()),
                };
                let facts: &mut Facts = &mut seen.facts;
                facts.insert(p, fact);
            }
            Err(Verdict::Need(Need::Digest(p))) => {
                let name = p.rsplit('/').next().unwrap().to_string();
                seen.digests.insert(p, Ok(sha(&name)));
            }
            _ => return seen,
        }
    }
}

fn refused(m: &EvidenceAttestation) -> Vec<String> {
    match verify_attestation(m, &observed(m), "/repo", "v1", COMMIT) {
        Err(Verdict::Refused(errors)) => errors.into_iter().map(|AttestationError(t)| t).collect(),
        _ => vec![],
    }
}

#[test]
fn attestations_that_bind_everything_are_accepted() {
    let m = manifest();
    assert!(verify_attestation(&m, &observed(&m), "/repo", "v1", COMMIT).is_ok());
}

#[test]
fn attestations_are_refused_for_each_fault() {
    let mut m = manifest();
    m.evidence[0].sha256 = sha("else");
    assert_eq!(
        refused(&m),
        vec![format!(
            "evidence digest mismatch for \"evidence.json\": expected {}, actual {}; refresh the evidence attestation",
            sha("else"),
            sha("evidence.json")
        )]
    );

    let mut m = manifest();
    m.source.tag = "v\"2".to_string();
    assert_eq!(refused(&m), vec!["source tag \"v\\\"2\" does not match release tag \"v1\"".to_string()]);

    let mut m = manifest();
    m.schema_version = 2;
    m.evidence.clear();
    assert_eq!(
        refused(&m),
        vec![
            "schema_version 2 is unsupported; expected 1".to_string(),
            "evidence must contain at least one digest binding".to_string(),
        ]
    );

    let mut m = manifest();
    m.exception = Some(ManualException {
        approval_id: "1".to_string(),
        approved_by: "someone".to_string(),
        reason: "none".to_string(),
        expires_at: "2027-01-01T00:00:00Z".to_string(),
    });
    assert_eq!(refused(&m).len(), 1);

    let mut m = manifest();
    m.evidence[0].path = "../evidence.json".to_string();
    assert_eq!(
        refused(&m),
        vec!["evidence path \"../evidence.json\" is not a safe repo-relative path".to_string()]
    );

    let mut m = manifest();
    m.inputs.pop();
    assert_eq!(refused(&m).len(), 1);
}

#[test]
fn promotion_changes_no_verdict() {
    for (path, stated, accepted) in [
        ("target/tp002-release/a/e.json", "e.json", true),
        ("target/tp002-release/a/e.json", "else", false),
    ] {
        let mut m = manifest();
        m.evidence[0].path = path.to_string();
        m.evidence[0].sha256 = sha(stated);
        let mut seen = observed(&m);
        let place = "/repo/target/tp002-release";
        seen.facts.insert(
            place.to_string(),
            Fact {
                symlink: false,
                exists: true,
                directory: true,
                canonical: Resolution::Path(place.to_string()),
            },
        );
        assert_eq!(verify_attestation(&m, &seen, "/repo", "v1", COMMIT).is_ok(), accepted);
        assert_eq!(
            verify_attestation_with_evidence_root(&m, &seen, "/repo", place, "v1", COMMIT).is_ok(),
            accepted
        );
    }
}

#[test]
fn shapes_of_texts_are_told_apart() {
    assert!(is_sha256(&sha("a")));
    assert!(!is_sha256(&sha("a").to_uppercase()));
    assert!(is_full_lower_hex_commit(COMMIT));
    assert!(!is_full_lower_hex_commit("0123"));
    assert!(looks_like_utc_timestamp("2026-01-02T03:04:05Z"));
    assert!(!looks_like_utc_timestamp("2026-01-02 03:04:05"));
    assert!(is_safe_relative_path("a/b"));
    assert!(!is_safe_relative_path("/a"));
    assert!(!is_safe_relative_path("a/../b"));
    assert!(!is_safe_relative_path(""));
}

#[test]
fn bindings_are_asked_for_and_kept_by_path() {
    let mut digests: OrdMap<String, Result<String, String>> = OrdMap::new();
    let paths = vec!["a".to_string(), "b".to_string()];
    let bound = loop {
        match bind_paths(&digests, "/repo", &paths) {
            Ok(m) => break m,
            Err(Err(Need::Digest(p))) => {
                let d = sha(&p);
                digests.insert(p, Ok(d));
            }
            Err(_) => panic!("nothing else is asked for"),
        }
    };
    assert_eq!(bound.get(&"a".to_string()), Some(&sha("/repo/a")));
    assert_eq!(bound.get(&"b".to_string()), Some(&sha("/repo/b")));
}

#[test]
fn bundles_bind_inputs_of_every_kind() {
    let kinds: Vec<InputKind> = bundle_inputs().into_iter().map(|(k, _)| k).collect();
    for k in [InputKind::ProductCode, InputKind::Harness, InputKind::Config, InputKind::DependencyLock] {
        assert!(kinds.contains(&k));
    }
    assert!(bundle_paths("b").iter().all(|p| p.contains('b')));
}

fn row(backend: &str, ac: &str) -> TransactionEvidenceRow {
    TransactionEvidenceRow {
        suite: "external_transaction_contract_matrix_tests".to_string(),
        spec_name: "TP-003 §3.10".to_string(),
        ac: ac.to_string(),
        backend: backend.to_string(),
        result: "pass".to_string(),
        detail: "".to_string(),
        assertions: vec!["held".to_string()],
        recorded_at: "2026-01-02T03:04:05Z".to_string(),
        source_revision: None,
        e3_profile: None,
        bound_ms: None,
        latency_window_timing: None,
        request_id_timing: None,
        e3_evidence_schema_version: None,
        e3_run_id: None,
        e3_composition_fingerprint: None,
        e3_authority_mode: None,
    }
}

fn file_of(rows: Vec<TransactionEvidenceRow>) -> EvidenceFile {
    let lines = rows.into_iter().enumerate().map(|(n, r)| EvidenceLine { number: n + 1, row: Ok(r) }).collect();
    EvidenceFile { path: "rows.jsonl".to_string(), lines: Ok(lines) }
}

fn backends() -> Vec<&'static str> {
    vec![SQLITE_PROFILE, POSTGRES_PROFILE]
}

fn every_pair() -> Vec<TransactionEvidenceRow> {
    let mut rows = vec![];
    for backend in backends() {
        for ac in [AC_1, AC_2, AC_3, AC_6] {
            rows.push(row(backend, ac));
        }
    }
    rows
}

#[test]
fn evidence_of_every_pair_is_accepted() {
    let summary = verify_transaction_evidence(&vec![file_of(every_pair())]).ok().unwrap();
    assert_eq!(summary.rows, 8);
    assert_eq!(summary.satisfied.len(), 8);
}

#[test]
fn evidence_is_refused_for_each_fault() {
    let complaints = |rows: Vec<TransactionEvidenceRow>| -> Vec<String> {
        match verify_transaction_evidence(&vec![file_of(rows)]) {
            Ok(_) => vec![],
            Err(errors) => errors.into_iter().map(|e| e.0).collect(),
        }
    };
    let mut rows = every_pair();
    rows.pop();
    assert_eq!(complaints(rows).len(), 1);

    let mut rows = every_pair();
    rows[0].result = "fail".to_string();
    assert_eq!(
        complaints(rows),
        vec![format!("rows.jsonl line 1 [{} {}]: result must be pass, got \"fail\"", backends()[0], AC_1)]
    );

    let mut rows = every_pair();
    rows[0].assertions = vec!["a GAP here".to_string()];
    assert!(complaints(rows)[0].ends_with(": pass row contains a coverage GAP"));

    let mut rows = every_pair();
    rows.push(row(backends()[0], AC_1));
    assert!(complaints(rows)[0].ends_with(": duplicate authority row"));

    let mut rows = every_pair();
    rows.push(row("postgres×memory", "AC-TXN-99"));
    assert_eq!(
        complaints(rows),
        vec![
            "rows.jsonl line 9 [postgres×memory AC-TXN-99]: AC is outside the required exact-pair contract"
                .to_string()
        ]
    );
    let mut rows = every_pair();
    rows.push(row("postgres×memory", AC_1));
    assert!(complaints(rows).is_empty());
    let mut rows = every_pair();
    rows.push(row("mysql", AC_1));
    assert!(complaints(rows)[0].ends_with(": profile is not an exact shipped Postgres storage pair"));

    match verify_transaction_evidence(&vec![]) {
        Err(errors) => assert_eq!(errors[0].0, "at least one transaction evidence file is required"),
        Ok(_) => panic!("no evidence was given"),
    }
}

#[test]
fn blank_lines_of_evidence_are_passed_over() {
    let lines = evidence_lines("{}\n\n  \n[]\r\n");
    assert_eq!(lines, vec![(1, "{}".to_string()), (4, "[]".to_string())]);
}
