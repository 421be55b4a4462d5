//! Fail-closed binding of release evidence to the source and the files that it was made from.

use crate::evidence_io::{EvidenceIoError, Fact, Facts, Halt, HaltV, IoErrorV, canonical, canonical_of, descend, descent, io_message};
use crate::order::{OrdMap, OrdSet};
use crate::path::{Part, PartV, absolute, begins, ends_named, is_absolute, join, joined, law_path_below, lemma_one_name, part_text, parts, parts_of, parts_v, remainder, starts_with, strip_prefix};
use crate::text::{all_blank, blank, debug_of, debug_text, decimal, numeral, same_text, texts};
use vstd::prelude::*;
use vstd::string::*;

verus! {

pub const SCHEMA_VERSION: u32 = 1;

pub const POLICY: &'static str = "exact-tag-rerun";

pub const SCOPE: &'static str = "tp002-release-v1";

pub const PROMOTED_EVIDENCE_PREFIX: &'static str = "target/tp002-release";

pub struct EvidenceAttestation {
    pub schema_version: u32,
    pub policy: String,
    pub scope: String,
    pub source: SourceBinding,
    pub producing_command: String,
    pub produced_at: String,
    pub reviewed_at: String,
    pub evidence: Vec<DigestBinding>,
    pub inputs: Vec<InputBinding>,
    pub exception: Option<ManualException>,
}

pub struct SourceBinding {
    pub tag: String,
    pub commit: String,
}

pub struct DigestBinding {
    pub path: String,
    pub sha256: String,
}

#[derive(Clone, Copy, Debug, PartialEq, Eq, Structural)]
pub enum InputKind {
    ProductCode,
    Harness,
    Config,
    DependencyLock,
}

pub struct InputBinding {
    pub kind: InputKind,
    pub path: String,
    pub sha256: String,
}

pub struct ManualException {
    pub approval_id: String,
    pub approved_by: String,
    pub reason: String,
    pub expires_at: String,
}

pub struct AttestationError(pub String);

/// What was seen of the file system.
pub struct Observed {
    pub facts: Facts,
    /// The digest of what stands at a path, or why there is none.
    pub digests: OrdMap<String, Result<String, String>>,
}

/// What a check needs to know before it can go on.
pub enum Need {
    /// What stands at this path.
    Look(String),
    /// The digest of what stands at this path.
    Digest(String),
}

pub enum NeedV {
    Look(Seq<char>),
    Digest(Seq<char>),
}

impl Need {
    pub open spec fn view(&self) -> NeedV {
        match self {
            Need::Look(p) => NeedV::Look(p@),
            Need::Digest(p) => NeedV::Digest(p@),
        }
    }
}

/// Why an attestation is not accepted, or not yet.
pub enum Verdict {
    Need(Need),
    Refused(Vec<AttestationError>),
}

pub enum VerdictV {
    Need(NeedV),
    Refused(Seq<Seq<char>>),
}

impl Verdict {
    pub open spec fn view(&self) -> VerdictV {
        match self {
            Verdict::Need(n) => VerdictV::Need(n@),
            Verdict::Refused(e) => VerdictV::Refused(error_texts(e@)),
        }
    }
}

pub open spec fn error_texts(v: Seq<AttestationError>) -> Seq<Seq<char>> {
    v.map_values(|e: AttestationError| e.0@)
}

pub open spec fn kind_name(k: InputKind) -> &'static str {
    match k {
        InputKind::ProductCode => "ProductCode",
        InputKind::Harness => "Harness",
        InputKind::Config => "Config",
        InputKind::DependencyLock => "DependencyLock",
    }
}

impl InputKind {
    pub fn name(self) -> (r: &'static str)
        ensures
            r == kind_name(self),
    {
        match self {
            InputKind::ProductCode => "ProductCode",
            InputKind::Harness => "Harness",
            InputKind::Config => "Config",
            InputKind::DependencyLock => "DependencyLock",
        }
    }
}

/// Lower-case hexadecimal digits.
pub open spec fn hex_bytes(s: Seq<u8>) -> bool {
    forall|i: int|
        0 <= i < s.len() ==> (48 <= #[trigger] s[i] && s[i] <= 57) || (97 <= s[i] && s[i] <= 102)
}

fn is_lower_hex(s: &str, len: usize) -> (r: bool)
    ensures
        r <==> s.spec_bytes().len() == len && hex_bytes(s.spec_bytes()),
{
    let b = s.as_bytes();
    if b.len() != len {
        return false;
    }
    let mut i: usize = 0;
    while i < b.len()
        invariant
            i <= b@.len(),
            b@ == s.spec_bytes(),
            forall|j: int|
                0 <= j < i ==> (48 <= #[trigger] b@[j] && b@[j] <= 57) || (97 <= b@[j] && b@[j]
                    <= 102),
        decreases b@.len() - i,
    {
        let c: u8 = b[i];
        if !((48 <= c && c <= 57) || (97 <= c && c <= 102)) {
            return false;
        }
        i = i + 1;
    }
    true
}

/// A digest as bindings write it.
pub fn is_sha256(value: &str) -> (r: bool)
    ensures
        r <==> value.spec_bytes().len() == 64 && hex_bytes(value.spec_bytes()),
{
    is_lower_hex(value, 64)
}

/// A commit as attestations write it.
pub fn is_full_lower_hex_commit(value: &str) -> (r: bool)
    ensures
        r <==> value.spec_bytes().len() == 40 && hex_bytes(value.spec_bytes()),
{
    is_lower_hex(value, 40)
}

/// A time that ends in the mark of UTC and has the day set apart.
pub open spec fn utc_shape(s: Seq<u8>) -> bool {
    s.len() >= 20 && s.last() == 90 && s[10] == 84
}

pub fn looks_like_utc_timestamp(value: &str) -> (r: bool)
    ensures
        r <==> utc_shape(value.spec_bytes()),
{
    let b = value.as_bytes();
    let n = b.len();
    n >= 20 && b[n - 1] == 90 && b[10] == 84
}

/// A path of names only, below where it starts.
pub open spec fn safe_relative(s: Seq<char>) -> bool {
    s.len() > 0 && !absolute(s) && forall|i: int|
        0 <= i < parts_of(s).len() ==> (#[trigger] parts_of(s)[i]) is Name
}

pub fn is_safe_relative_path(value: &str) -> (r: bool)
    ensures
        r <==> safe_relative(value@),
{
    if value.unicode_len() == 0 || is_absolute(value) {
        return false;
    }
    let p = parts(value);
    let mut i: usize = 0;
    while i < p.len()
        invariant
            i <= p@.len(),
            parts_v(p@) == parts_of(value@),
            forall|j: int| 0 <= j < i ==> (#[trigger] parts_of(value@)[j]) is Name,
        decreases p@.len() - i,
    {
        assert(parts_v(p@)[i as int] == p@[i as int]@);
        match &p[i] {
            Part::Name(_) => {},
            _ => {
                assert(!(parts_of(value@)[i as int] is Name));
                return false;
            },
        }
        i = i + 1;
    }
    true
}

/// The state of a check: the paths bound so far, and what is wrong.
pub ghost struct Check {
    pub seen: Set<Seq<char>>,
    pub errors: Seq<Seq<char>>,
}

/// A complaint where there is cause for one.
pub open spec fn noted(errors: Seq<Seq<char>>, cause: bool, text: Seq<char>) -> Seq<Seq<char>> {
    if cause {
        errors.push(text)
    } else {
        errors
    }
}

fn note(errors: &mut Vec<String>, cause: bool, text: String)
    ensures
        texts(final(errors)@) == noted(texts(old(errors)@), cause, text@),
{
    let ghost before = errors@;
    if cause {
        errors.push(text);
        assert(texts(errors@) =~= texts(before).push(text@));
    }
}

pub open spec fn complain(st: Check, text: Seq<char>) -> Result<Check, NeedV> {
    Ok(Check { errors: st.errors.push(text), ..st })
}

/// One digest binding: a safe path, bound once, with a digest, below the root without a symlink, that
/// has the digest that the binding states.
pub open spec fn bound(
    st: Check,
    facts: Map<Seq<char>, Fact>,
    digests: Map<Seq<char>, Result<String, String>>,
    root: Seq<char>,
    label: Seq<char>,
    path: Seq<char>,
    expected: Seq<char>,
) -> Result<Check, NeedV> {
    let named = label + " path "@ + debug_of(path);
    if !safe_relative(path) {
        complain(st, named + " is not a safe repo-relative path"@)
    } else if st.seen.contains(path) {
        complain(st, "duplicate digest binding for path "@ + debug_of(path))
    } else {
        let st = Check { seen: st.seen.insert(path), ..st };
        if !(vstd::utf8::encode_utf8(expected).len() == 64 && hex_bytes(
            vstd::utf8::encode_utf8(expected),
        )) {
            complain(st, named + " has an invalid SHA-256"@)
        } else {
            match canonical_of(facts, root) {
                Err(HaltV::Look(p)) => Err(NeedV::Look(p)),
                Err(HaltV::Fail(e)) => complain(
                    st,
                    "cannot canonicalize repo root: "@ + io_text(e),
                ),
                Ok(base) => match descent(facts, root, root, parts_of(path)) {
                    Err(HaltV::Look(p)) => Err(NeedV::Look(p)),
                    Err(HaltV::Fail(_)) => complain(st, named + " contains a symlink"@),
                    Ok(_) => match canonical_of(facts, joined(root, path)) {
                        Err(HaltV::Look(p)) => Err(NeedV::Look(p)),
                        Err(HaltV::Fail(e)) => complain(
                            st,
                            "cannot canonicalize "@ + named + ": "@ + io_text(e),
                        ),
                        Ok(place) => if !begins(place, base) {
                            complain(st, named + " escapes the repo root"@)
                        } else if !digests.contains_key(place) {
                            Err(NeedV::Digest(place))
                        } else {
                            match digests[place] {
                                Ok(found) => if found@ == expected {
                                    Ok(st)
                                } else {
                                    complain(
                                        st,
                                        label + " digest mismatch for "@ + debug_of(path)
                                            + ": expected "@ + expected + ", actual "@ + found@
                                            + "; refresh the evidence attestation"@,
                                    )
                                },
                                Err(m) => complain(st, "cannot hash "@ + named + ": "@ + m@),
                            }
                        },
                    },
                },
            }
        }
    }
}

/// The system's message in a failure to resolve a path.
pub open spec fn io_text(e: IoErrorV) -> Seq<char> {
    match e {
        IoErrorV::Io(m) => m,
        _ => io_message(e),
    }
}

pub(crate) fn io_words(e: &EvidenceIoError) -> (r: String)
    ensures
        r@ == io_text(e@),
{
    match e {
        EvidenceIoError::Io(m) => m.clone(),
        _ => e.message(),
    }
}

fn verify_digest_binding(
    observed: &Observed,
    root: &str,
    label: &str,
    path: &str,
    expected: &str,
    seen: &mut OrdSet<String>,
    errors: &mut Vec<String>,
) -> (r: Result<(), Need>)
    ensures
        match r {
            Ok(_) => bound(
                Check { seen: old(seen)@, errors: texts(old(errors)@) },
                observed.facts@,
                observed.digests@,
                root@,
                label@,
                path@,
                expected@,
            ) == Ok::<Check, NeedV>(Check { seen: final(seen)@, errors: texts(final(errors)@) }),
            Err(n) => bound(
                Check { seen: old(seen)@, errors: texts(old(errors)@) },
                observed.facts@,
                observed.digests@,
                root@,
                label@,
                path@,
                expected@,
            ) == Err::<Check, NeedV>(n@),
        },
{
    let quoted = debug_text(path);
    let named = label.to_owned().concat(" path ").concat(quoted.as_str());
    if !is_safe_relative_path(path) {
        note(errors, true, named.concat(" is not a safe repo-relative path"));
        return Ok(());
    }
    let key = path.to_owned();
    if seen.contains(&key) {
        note(
            errors,
            true,
            "duplicate digest binding for path ".to_owned().concat(quoted.as_str()),
        );
        return Ok(());
    }
    seen.insert(key);
    if !is_sha256(expected) {
        note(errors, true, named.concat(" has an invalid SHA-256"));
        return Ok(());
    }
    let base = match canonical(&observed.facts, root) {
        Ok(p) => p,
        Err(Halt::Look(p)) => {
            return Err(Need::Look(p));
        },
        Err(Halt::Fail(e)) => {
            note(
                errors,
                true,
                "cannot canonicalize repo root: ".to_owned().concat(io_words(&e).as_str()),
            );
            return Ok(());
        },
    };
    match descend(&observed.facts, root, path) {
        Ok(_) => {},
        Err(Halt::Look(p)) => {
            return Err(Need::Look(p));
        },
        Err(Halt::Fail(_)) => {
            note(errors, true, named.concat(" contains a symlink"));
            return Ok(());
        },
    }
    let candidate = join(root, path);
    let place = match canonical(&observed.facts, candidate.as_str()) {
        Ok(p) => p,
        Err(Halt::Look(p)) => {
            return Err(Need::Look(p));
        },
        Err(Halt::Fail(e)) => {
            note(
                errors,
                true,
                "cannot canonicalize ".to_owned().concat(named.as_str()).concat(": ").concat(
                    io_words(&e).as_str(),
                ),
            );
            return Ok(());
        },
    };
    if !starts_with(place.as_str(), base.as_str()) {
        note(errors, true, named.concat(" escapes the repo root"));
        return Ok(());
    }
    match observed.digests.get(&place) {
        None => {
            return Err(Need::Digest(place));
        },
        Some(Ok(found)) => {
            if !same_text(found.as_str(), expected) {
                note(
                    errors,
                    true,
                    label.to_owned().concat(" digest mismatch for ").concat(quoted.as_str()).concat(
                        ": expected ",
                    ).concat(expected).concat(", actual ").concat(found.as_str()).concat(
                        "; refresh the evidence attestation",
                    ),
                );
            }
        },
        Some(Err(m)) => {
            note(
                errors,
                true,
                "cannot hash ".to_owned().concat(named.as_str()).concat(": ").concat(m.as_str()),
            );
        },
    }
    Ok(())
}

/// What is wrong with an attestation before any path is looked at.
pub open spec fn heading_errors(
    m: EvidenceAttestation,
    expected_tag: Seq<char>,
    expected_commit: Seq<char>,
) -> Seq<Seq<char>> {
    let e = Seq::<Seq<char>>::empty();
    let e = noted(
        e,
        m.schema_version != SCHEMA_VERSION,
        "schema_version "@ + numeral(m.schema_version as nat) + " is unsupported; expected 1"@,
    );
    let e = noted(
        e,
        m.policy@ != POLICY@,
        "policy "@ + debug_of(m.policy@) + " is unsupported; expected "@ + debug_of(POLICY@),
    );
    let e = noted(
        e,
        m.scope@ != SCOPE@,
        "scope "@ + debug_of(m.scope@) + " is unsupported; expected "@ + debug_of(SCOPE@),
    );
    let e = noted(
        e,
        m.source.tag@ != expected_tag,
        "source tag "@ + debug_of(m.source.tag@) + " does not match release tag "@ + debug_of(
            expected_tag,
        ),
    );
    let e = noted(
        e,
        m.source.commit@ != expected_commit,
        "source commit "@ + debug_of(m.source.commit@) + " does not match release commit "@
            + debug_of(expected_commit),
    );
    let commit = vstd::utf8::encode_utf8(m.source.commit@);
    let e = noted(
        e,
        !(commit.len() == 40 && hex_bytes(commit)),
        "source commit must be a full 40-character lowercase Git SHA"@,
    );
    let e = noted(e, all_blank(m.producing_command@), "producing_command must not be empty"@);
    let e = noted(
        e,
        !utc_shape(vstd::utf8::encode_utf8(m.produced_at@)),
        "produced_at must be a UTC RFC3339 timestamp"@,
    );
    let e = noted(
        e,
        !utc_shape(vstd::utf8::encode_utf8(m.reviewed_at@)),
        "reviewed_at must be a UTC RFC3339 timestamp"@,
    );
    let e = noted(e, m.evidence@.len() == 0, "evidence must contain at least one digest binding"@);
    noted(
        e,
        m.exception is Some,
        "manual exception is declared: automated release evidence must remain red and requires the documented emergency approval path"@,
    )
}

fn check_heading(
    manifest: &EvidenceAttestation,
    expected_tag: &str,
    expected_commit: &str,
) -> (r: Vec<String>)
    ensures
        texts(r@) == heading_errors(*manifest, expected_tag@, expected_commit@),
{
    let mut e: Vec<String> = Vec::new();
    assert(texts(e@) =~= Seq::<Seq<char>>::empty());
    note(
        &mut e,
        manifest.schema_version != SCHEMA_VERSION,
        "schema_version ".to_owned().concat(decimal(manifest.schema_version as u64).as_str()).concat(
            " is unsupported; expected 1",
        ),
    );
    note(
        &mut e,
        !same_text(manifest.policy.as_str(), POLICY),
        "policy ".to_owned().concat(debug_text(manifest.policy.as_str()).as_str()).concat(
            " is unsupported; expected ",
        ).concat(debug_text(POLICY).as_str()),
    );
    note(
        &mut e,
        !same_text(manifest.scope.as_str(), SCOPE),
        "scope ".to_owned().concat(debug_text(manifest.scope.as_str()).as_str()).concat(
            " is unsupported; expected ",
        ).concat(debug_text(SCOPE).as_str()),
    );
    note(
        &mut e,
        !same_text(manifest.source.tag.as_str(), expected_tag),
        "source tag ".to_owned().concat(debug_text(manifest.source.tag.as_str()).as_str()).concat(
            " does not match release tag ",
        ).concat(debug_text(expected_tag).as_str()),
    );
    note(
        &mut e,
        !same_text(manifest.source.commit.as_str(), expected_commit),
        "source commit ".to_owned().concat(
            debug_text(manifest.source.commit.as_str()).as_str(),
        ).concat(" does not match release commit ").concat(debug_text(expected_commit).as_str()),
    );
    note(
        &mut e,
        !is_full_lower_hex_commit(manifest.source.commit.as_str()),
        "source commit must be a full 40-character lowercase Git SHA".to_owned(),
    );
    note(
        &mut e,
        blank(manifest.producing_command.as_str()),
        "producing_command must not be empty".to_owned(),
    );
    note(
        &mut e,
        !looks_like_utc_timestamp(manifest.produced_at.as_str()),
        "produced_at must be a UTC RFC3339 timestamp".to_owned(),
    );
    note(
        &mut e,
        !looks_like_utc_timestamp(manifest.reviewed_at.as_str()),
        "reviewed_at must be a UTC RFC3339 timestamp".to_owned(),
    );
    note(
        &mut e,
        manifest.evidence.len() == 0,
        "evidence must contain at least one digest binding".to_owned(),
    );
    note(
        &mut e,
        manifest.exception.is_some(),
        "manual exception is declared: automated release evidence must remain red and requires the documented emergency approval path".to_owned(),
    );
    e
}

/// One evidence binding. Before promotion its path is looked up below the evidence root.
pub open spec fn evidence_bound(
    st: Check,
    facts: Map<Seq<char>, Fact>,
    digests: Map<Seq<char>, Result<String, String>>,
    repo_root: Seq<char>,
    evidence_root: Option<Seq<char>>,
    binding: DigestBinding,
) -> Result<Check, NeedV> {
    match evidence_root {
        None => bound(
            st,
            facts,
            digests,
            repo_root,
            "evidence"@,
            binding.path@,
            binding.sha256@,
        ),
        Some(root) => match remainder(binding.path@, PROMOTED_EVIDENCE_PREFIX@) {
            Some(below) if parts_of(below).len() > 0 => bound(
                st,
                facts,
                digests,
                root,
                "evidence"@,
                below,
                binding.sha256@,
            ),
            _ => complain(
                st,
                "evidence path "@ + debug_of(binding.path@) + " is outside promoted prefix "@
                    + debug_of(PROMOTED_EVIDENCE_PREFIX@),
            ),
        },
    }
}

pub open spec fn evidence_all_bound(
    st: Check,
    facts: Map<Seq<char>, Fact>,
    digests: Map<Seq<char>, Result<String, String>>,
    repo_root: Seq<char>,
    evidence_root: Option<Seq<char>>,
    bindings: Seq<DigestBinding>,
) -> Result<Check, NeedV>
    decreases bindings.len(),
{
    if bindings.len() == 0 {
        Ok(st)
    } else {
        match evidence_bound(st, facts, digests, repo_root, evidence_root, bindings[0]) {
            Ok(next) => evidence_all_bound(
                next,
                facts,
                digests,
                repo_root,
                evidence_root,
                bindings.drop_first(),
            ),
            Err(n) => Err(n),
        }
    }
}

pub open spec fn inputs_all_bound(
    st: Check,
    facts: Map<Seq<char>, Fact>,
    digests: Map<Seq<char>, Result<String, String>>,
    repo_root: Seq<char>,
    bindings: Seq<InputBinding>,
) -> Result<Check, NeedV>
    decreases bindings.len(),
{
    if bindings.len() == 0 {
        Ok(st)
    } else {
        match bound(
            st,
            facts,
            digests,
            repo_root,
            "input"@,
            bindings[0].path@,
            bindings[0].sha256@,
        ) {
            Ok(next) => inputs_all_bound(next, facts, digests, repo_root, bindings.drop_first()),
            Err(n) => Err(n),
        }
    }
}

/// An input of this kind is bound.
pub open spec fn has_kind(bindings: Seq<InputBinding>, kind: InputKind) -> bool {
    exists|i: int| 0 <= i < bindings.len() && (#[trigger] bindings[i]).kind == kind
}

pub open spec fn kind_errors(errors: Seq<Seq<char>>, bindings: Seq<InputBinding>) -> Seq<Seq<char>> {
    let e = kind_noted(errors, bindings, InputKind::ProductCode);
    let e = kind_noted(e, bindings, InputKind::Harness);
    let e = kind_noted(e, bindings, InputKind::Config);
    kind_noted(e, bindings, InputKind::DependencyLock)
}

pub open spec fn kind_noted(
    errors: Seq<Seq<char>>,
    bindings: Seq<InputBinding>,
    kind: InputKind,
) -> Seq<Seq<char>> {
    noted(
        errors,
        !has_kind(bindings, kind),
        "inputs are missing required kind "@ + kind_name(kind)@,
    )
}

fn note_kind(errors: &mut Vec<String>, bindings: &Vec<InputBinding>, kind: InputKind)
    ensures
        texts(final(errors)@) == kind_noted(texts(old(errors)@), bindings@, kind),
{
    let mut i: usize = 0;
    let mut found = false;
    while i < bindings.len()
        invariant
            i <= bindings@.len(),
            found <==> exists|j: int| 0 <= j < i && (#[trigger] bindings@[j]).kind == kind,
        decreases bindings@.len() - i,
    {
        if bindings[i].kind == kind {
            assert(bindings@[i as int].kind == kind);
            found = true;
        }
        i = i + 1;
    }
    note(errors, !found, "inputs are missing required kind ".to_owned().concat(kind.name()));
}

/// What is said of an attestation.
pub open spec fn attested(
    m: EvidenceAttestation,
    facts: Map<Seq<char>, Fact>,
    digests: Map<Seq<char>, Result<String, String>>,
    repo_root: Seq<char>,
    evidence_root: Option<Seq<char>>,
    expected_tag: Seq<char>,
    expected_commit: Seq<char>,
) -> Result<(), VerdictV> {
    let st = Check {
        seen: Set::empty(),
        errors: heading_errors(m, expected_tag, expected_commit),
    };
    match evidence_all_bound(st, facts, digests, repo_root, evidence_root, m.evidence@) {
        Err(n) => Err(VerdictV::Need(n)),
        Ok(st) => match inputs_all_bound(st, facts, digests, repo_root, m.inputs@) {
            Err(n) => Err(VerdictV::Need(n)),
            Ok(st) => {
                let errors = kind_errors(st.errors, m.inputs@);
                if errors.len() == 0 {
                    Ok(())
                } else {
                    Err(VerdictV::Refused(errors))
                }
            },
        },
    }
}

fn verify_attestation_impl(
    manifest: &EvidenceAttestation,
    observed: &Observed,
    repo_root: &str,
    evidence_root: Option<&str>,
    expected_tag: &str,
    expected_commit: &str,
) -> (r: Result<(), Verdict>)
    ensures
        match r {
            Ok(_) => attested(
                *manifest,
                observed.facts@,
                observed.digests@,
                repo_root@,
                match evidence_root {
                    Some(t) => Some(t@),
                    None => None,
                },
                expected_tag@,
                expected_commit@,
            ) is Ok,
            Err(v) => attested(
                *manifest,
                observed.facts@,
                observed.digests@,
                repo_root@,
                match evidence_root {
                    Some(t) => Some(t@),
                    None => None,
                },
                expected_tag@,
                expected_commit@,
            ) == Err::<(), VerdictV>(v@),
        },
{
    let ghost facts = observed.facts@;
    let ghost digests = observed.digests@;
    let ghost root_v: Option<Seq<char>> = match evidence_root {
        Some(t) => Some(t@),
        None => None,
    };
    let mut errors = check_heading(manifest, expected_tag, expected_commit);
    let mut seen: OrdSet<String> = OrdSet::new();
    let ghost start = Check { seen: seen@, errors: texts(errors@) };
    let ghost evidence = manifest.evidence@;
    let mut i: usize = 0;
    assert(evidence.skip(0) =~= evidence);
    while i < manifest.evidence.len()
        invariant
            i <= evidence.len(),
            evidence == manifest.evidence@,
            facts == observed.facts@,
            digests == observed.digests@,
            root_v == (match evidence_root {
                Some(t) => Some(t@),
                None => None,
            }),
            evidence_all_bound(
                Check { seen: seen@, errors: texts(errors@) },
                facts,
                digests,
                repo_root@,
                root_v,
                evidence.skip(i as int),
            ) == evidence_all_bound(start, facts, digests, repo_root@, root_v, evidence),
            start.errors == heading_errors(*manifest, expected_tag@, expected_commit@),
            start.seen == Set::<Seq<char>>::empty(),
        decreases evidence.len() - i,
    {
        proof {
            assert(evidence.skip(i as int)[0] == manifest.evidence@[i as int]);
            assert(evidence.skip(i as int).drop_first() =~= evidence.skip(i as int + 1));
        }
        let binding = &manifest.evidence[i];
        let outcome = match evidence_root {
            None => verify_digest_binding(
                observed,
                repo_root,
                "evidence",
                binding.path.as_str(),
                binding.sha256.as_str(),
                &mut seen,
                &mut errors,
            ),
            Some(root) => {
                let below = match strip_prefix(binding.path.as_str(), PROMOTED_EVIDENCE_PREFIX) {
                    Some(t) => if parts(t.as_str()).len() > 0 {
                        assert(parts_of(t@).len() > 0);
                        Some(t)
                    } else {
                        assert(parts_of(t@).len() == 0);
                        None
                    },
                    None => None,
                };
                match below {
                    Some(t) => verify_digest_binding(
                        observed,
                        root,
                        "evidence",
                        t.as_str(),
                        binding.sha256.as_str(),
                        &mut seen,
                        &mut errors,
                    ),
                    None => {
                        note(
                            &mut errors,
                            true,
                            "evidence path ".to_owned().concat(
                                debug_text(binding.path.as_str()).as_str(),
                            ).concat(" is outside promoted prefix ").concat(
                                debug_text(PROMOTED_EVIDENCE_PREFIX).as_str(),
                            ),
                        );
                        Ok(())
                    },
                }
            },
        };
        match outcome {
            Ok(_) => {},
            Err(n) => {
                return Err(Verdict::Need(n));
            },
        }
        i = i + 1;
    }
    assert(evidence.skip(i as int) =~= Seq::<DigestBinding>::empty());
    let ghost middle = Check { seen: seen@, errors: texts(errors@) };
    let ghost inputs = manifest.inputs@;
    let mut k: usize = 0;
    assert(inputs.skip(0) =~= inputs);
    while k < manifest.inputs.len()
        invariant
            k <= inputs.len(),
            inputs == manifest.inputs@,
            facts == observed.facts@,
            digests == observed.digests@,
            evidence == manifest.evidence@,
            root_v == (match evidence_root {
                Some(t) => Some(t@),
                None => None,
            }),
            evidence_all_bound(start, facts, digests, repo_root@, root_v, evidence) == Ok::<
                Check,
                NeedV,
            >(middle),
            start.errors == heading_errors(*manifest, expected_tag@, expected_commit@),
            start.seen == Set::<Seq<char>>::empty(),
            inputs_all_bound(
                Check { seen: seen@, errors: texts(errors@) },
                facts,
                digests,
                repo_root@,
                inputs.skip(k as int),
            ) == inputs_all_bound(middle, facts, digests, repo_root@, inputs),
        decreases inputs.len() - k,
    {
        proof {
            assert(inputs.skip(k as int)[0] == manifest.inputs@[k as int]);
            assert(inputs.skip(k as int).drop_first() =~= inputs.skip(k as int + 1));
        }
        let binding = &manifest.inputs[k];
        match verify_digest_binding(
            observed,
            repo_root,
            "input",
            binding.path.as_str(),
            binding.sha256.as_str(),
            &mut seen,
            &mut errors,
        ) {
            Ok(_) => {},
            Err(n) => {
                return Err(Verdict::Need(n));
            },
        }
        k = k + 1;
    }
    assert(inputs.skip(k as int) =~= Seq::<InputBinding>::empty());
    note_kind(&mut errors, &manifest.inputs, InputKind::ProductCode);
    note_kind(&mut errors, &manifest.inputs, InputKind::Harness);
    note_kind(&mut errors, &manifest.inputs, InputKind::Config);
    note_kind(&mut errors, &manifest.inputs, InputKind::DependencyLock);
    if errors.len() == 0 {
        Ok(())
    } else {
        Err(Verdict::Refused(as_errors(errors)))
    }
}

fn as_errors(lines: Vec<String>) -> (r: Vec<AttestationError>)
    ensures
        error_texts(r@) == texts(lines@),
{
    let mut out: Vec<AttestationError> = Vec::new();
    let mut i: usize = 0;
    while i < lines.len()
        invariant
            i <= lines@.len(),
            error_texts(out@) == texts(lines@).take(i as int),
        decreases lines@.len() - i,
    {
        let ghost before = out@;
        out.push(AttestationError(lines[i].clone()));
        assert(error_texts(out@) =~= error_texts(before).push(lines@[i as int]@));
        assert(texts(lines@).take(i as int + 1) =~= texts(lines@).take(i as int).push(
            lines@[i as int]@,
        ));
        i = i + 1;
    }
    assert(texts(lines@).take(i as int) =~= texts(lines@));
    out
}

/// The evidence of a bundle.
pub open spec fn bundled(bundle: Seq<char>) -> Seq<Seq<char>> {
    seq![
        bundle + "/composite-contract.json"@,
        bundle + "/e0.jsonl"@,
        bundle + "/e1.jsonl"@,
        bundle + "/e2-scale.jsonl"@,
        bundle + "/e2-density.jsonl"@,
        bundle + "/e2-failover.json"@,
        bundle + "/e3"@,
    ]
}

/// The paths of the evidence in a bundle.
pub fn bundle_paths(bundle: &str) -> (r: Vec<String>)
    ensures
        texts(r@) == bundled(bundle@),
{
    let mut out: Vec<String> = Vec::new();
    out.push(bundle.to_owned().concat("/composite-contract.json"));
    out.push(bundle.to_owned().concat("/e0.jsonl"));
    out.push(bundle.to_owned().concat("/e1.jsonl"));
    out.push(bundle.to_owned().concat("/e2-scale.jsonl"));
    out.push(bundle.to_owned().concat("/e2-density.jsonl"));
    out.push(bundle.to_owned().concat("/e2-failover.json"));
    out.push(bundle.to_owned().concat("/e3"));
    assert(texts(out@) =~= bundled(bundle@));
    out
}

/// The source inputs that an attestation binds, by kind.
pub open spec fn bound_inputs() -> Seq<(InputKind, &'static str)> {
    seq![
        (InputKind::ProductCode, "crates"),
        (InputKind::Harness, "scripts"),
        (InputKind::Config, ".github/workflows/release.yml"),
        (InputKind::DependencyLock, "Cargo.lock"),
    ]
}

pub fn bundle_inputs() -> (r: Vec<(InputKind, &'static str)>)
    ensures
        r@ == bound_inputs(),
{
    let mut out: Vec<(InputKind, &'static str)> = Vec::new();
    out.push((InputKind::ProductCode, "crates"));
    out.push((InputKind::Harness, "scripts"));
    out.push((InputKind::Config, ".github/workflows/release.yml"));
    out.push((InputKind::DependencyLock, "Cargo.lock"));
    assert(out@ =~= bound_inputs());
    out
}

/// The command that new attestations say they were made by.
pub const PRODUCING_COMMAND: &'static str =
    "scripts/release/build-governed-evidence-bundle.sh + fireweed-build-evidence-attestation";

/// A new attestation of a bundle, without an exception.
pub fn new_attestation(
    tag: &str,
    commit: &str,
    produced_at: &str,
    reviewed_at: &str,
    evidence: Vec<DigestBinding>,
    inputs: Vec<InputBinding>,
) -> (r: EvidenceAttestation)
    ensures
        r.schema_version == SCHEMA_VERSION,
        r.policy@ == POLICY@,
        r.scope@ == SCOPE@,
        r.source.tag@ == tag@,
        r.source.commit@ == commit@,
        r.producing_command@ == PRODUCING_COMMAND@,
        r.produced_at@ == produced_at@,
        r.reviewed_at@ == reviewed_at@,
        r.evidence == evidence,
        r.inputs == inputs,
        r.exception is None,
{
    EvidenceAttestation {
        schema_version: SCHEMA_VERSION,
        policy: POLICY.to_owned(),
        scope: SCOPE.to_owned(),
        source: SourceBinding { tag: tag.to_owned(), commit: commit.to_owned() },
        producing_command: PRODUCING_COMMAND.to_owned(),
        produced_at: produced_at.to_owned(),
        reviewed_at: reviewed_at.to_owned(),
        evidence,
        inputs,
        exception: None,
    }
}

/// The inputs that new attestations bind are of every kind that is required.
pub proof fn law_bound_inputs_are_of_every_kind(kind: InputKind)
    ensures
        exists|i: int| 0 <= i < bound_inputs().len() && (#[trigger] bound_inputs()[i]).0 == kind,
{
    let at: int = match kind {
        InputKind::ProductCode => 0,
        InputKind::Harness => 1,
        InputKind::Config => 2,
        InputKind::DependencyLock => 3,
    };
    assert(bound_inputs()[at].0 == kind);
}

/// Verifies an attestation against the tag and commit being released and the current checkout.
///
/// All paths are relative to the repository and may name a file or a directory.
pub fn verify_attestation(
    manifest: &EvidenceAttestation,
    observed: &Observed,
    repo_root: &str,
    expected_tag: &str,
    expected_commit: &str,
) -> (r: Result<(), Verdict>)
    ensures
        match r {
            Ok(_) => attested(
                *manifest,
                observed.facts@,
                observed.digests@,
                repo_root@,
                None,
                expected_tag@,
                expected_commit@,
            ) is Ok,
            Err(v) => attested(
                *manifest,
                observed.facts@,
                observed.digests@,
                repo_root@,
                None,
                expected_tag@,
                expected_commit@,
            ) == Err::<(), VerdictV>(v@),
        },
{
    verify_attestation_impl(manifest, observed, repo_root, None, expected_tag, expected_commit)
}

/// Verifies a bundle that is not promoted yet. Its evidence bindings name the places that it will be
/// promoted to; its inputs are verified in the repository.
pub fn verify_attestation_with_evidence_root(
    manifest: &EvidenceAttestation,
    observed: &Observed,
    repo_root: &str,
    evidence_root: &str,
    expected_tag: &str,
    expected_commit: &str,
) -> (r: Result<(), Verdict>)
    ensures
        match r {
            Ok(_) => attested(
                *manifest,
                observed.facts@,
                observed.digests@,
                repo_root@,
                Some(evidence_root@),
                expected_tag@,
                expected_commit@,
            ) is Ok,
            Err(v) => attested(
                *manifest,
                observed.facts@,
                observed.digests@,
                repo_root@,
                Some(evidence_root@),
                expected_tag@,
                expected_commit@,
            ) == Err::<(), VerdictV>(v@),
        },
{
    verify_attestation_impl(
        manifest,
        observed,
        repo_root,
        Some(evidence_root),
        expected_tag,
        expected_commit,
    )
}

/// The digest of each path, or the first failure.
pub open spec fn bound_paths(
    digests: Map<Seq<char>, Result<String, String>>,
    repo_root: Seq<char>,
    paths: Seq<Seq<char>>,
) -> Result<Map<Seq<char>, Seq<char>>, Result<Seq<char>, NeedV>>
    decreases paths.len(),
{
    if paths.len() == 0 {
        Ok(Map::empty())
    } else {
        match bound_paths(digests, repo_root, paths.drop_last()) {
            Err(e) => Err(e),
            Ok(m) => {
                let place = joined(repo_root, paths.last());
                if !digests.contains_key(place) {
                    Err(Err(NeedV::Digest(place)))
                } else {
                    match digests[place] {
                        Ok(d) => Ok(m.insert(paths.last(), d@)),
                        Err(e) => Err(Ok(e@)),
                    }
                }
            },
        }
    }
}

pub open spec fn text_map(m: Map<Seq<char>, String>) -> Map<Seq<char>, Seq<char>> {
    Map::new(|k: Seq<char>| m.contains_key(k), |k: Seq<char>| m[k]@)
}

/// The digest bindings of paths below the repository. `Err(Ok(..))` is the failure of one of them.
pub fn bind_paths(
    digests: &OrdMap<String, Result<String, String>>,
    repo_root: &str,
    paths: &Vec<String>,
) -> (r: Result<OrdMap<String, String>, Result<String, Need>>)
    ensures
        match r {
            Ok(m) => bound_paths(digests@, repo_root@, texts(paths@)) == Ok::<
                Map<Seq<char>, Seq<char>>,
                Result<Seq<char>, NeedV>,
            >(text_map(m@)),
            Err(Ok(e)) => bound_paths(digests@, repo_root@, texts(paths@)) == Err::<
                Map<Seq<char>, Seq<char>>,
                Result<Seq<char>, NeedV>,
            >(Ok(e@)),
            Err(Err(n)) => bound_paths(digests@, repo_root@, texts(paths@)) == Err::<
                Map<Seq<char>, Seq<char>>,
                Result<Seq<char>, NeedV>,
            >(Err(n@)),
        },
{
    let ghost all = texts(paths@);
    let mut out: OrdMap<String, String> = OrdMap::new();
    let mut i: usize = 0;
    assert(all.take(0) =~= Seq::<Seq<char>>::empty());
    assert(text_map(out@) =~= Map::<Seq<char>, Seq<char>>::empty());
    while i < paths.len()
        invariant
            i <= paths@.len(),
            all == texts(paths@),
            bound_paths(digests@, repo_root@, all.take(i as int)) == Ok::<
                Map<Seq<char>, Seq<char>>,
                Result<Seq<char>, NeedV>,
            >(text_map(out@)),
        decreases paths@.len() - i,
    {
        let place = join(repo_root, paths[i].as_str());
        proof {
            let t = all.take(i as int + 1);
            assert(t.drop_last() =~= all.take(i as int));
            assert(t.last() == paths@[i as int]@);
        }
        match digests.get(&place) {
            None => {
                proof {
                    lemma_bound_paths_stops(digests@, repo_root@, all, i as int + 1);
                }
                return Err(Err(Need::Digest(place)));
            },
            Some(Err(e)) => {
                proof {
                    lemma_bound_paths_stops(digests@, repo_root@, all, i as int + 1);
                }
                return Err(Ok(e.clone()));
            },
            Some(Ok(d)) => {
                let ghost before = out@;
                out.insert(paths[i].clone(), d.clone());
                assert(text_map(out@) =~= text_map(before).insert(paths@[i as int]@, d@));
            },
        }
        i = i + 1;
    }
    assert(all.take(i as int) =~= all);
    Ok(out)
}

proof fn lemma_bound_paths_stops(
    digests: Map<Seq<char>, Result<String, String>>,
    repo_root: Seq<char>,
    paths: Seq<Seq<char>>,
    n: int,
)
    requires
        0 <= n <= paths.len(),
        bound_paths(digests, repo_root, paths.take(n)) is Err,
    ensures
        bound_paths(digests, repo_root, paths) == bound_paths(digests, repo_root, paths.take(n)),
    decreases paths.len() - n,
{
    if n == paths.len() {
        assert(paths.take(n) =~= paths);
    } else {
        assert(paths.take(n + 1).drop_last() =~= paths.take(n));
        lemma_bound_paths_stops(digests, repo_root, paths, n + 1);
    }
}

/// An accepted attestation names the release, states a command, binds some evidence, declares no
/// exception, and binds an input of every kind.
pub proof fn law_accepted_attestation_is_complete(
    m: EvidenceAttestation,
    facts: Map<Seq<char>, Fact>,
    digests: Map<Seq<char>, Result<String, String>>,
    repo_root: Seq<char>,
    evidence_root: Option<Seq<char>>,
    expected_tag: Seq<char>,
    expected_commit: Seq<char>,
)
    requires
        attested(m, facts, digests, repo_root, evidence_root, expected_tag, expected_commit) is Ok,
    ensures
        m.schema_version == SCHEMA_VERSION,
        m.policy@ == POLICY@,
        m.scope@ == SCOPE@,
        m.source.tag@ == expected_tag,
        m.source.commit@ == expected_commit,
        !all_blank(m.producing_command@),
        m.evidence@.len() > 0,
        m.exception is None,
        has_kind(m.inputs@, InputKind::ProductCode),
        has_kind(m.inputs@, InputKind::Harness),
        has_kind(m.inputs@, InputKind::Config),
        has_kind(m.inputs@, InputKind::DependencyLock),
{
    let st = Check {
        seen: Set::empty(),
        errors: heading_errors(m, expected_tag, expected_commit),
    };
    lemma_evidence_grows(st, facts, digests, repo_root, evidence_root, m.evidence@);
    let mid = evidence_all_bound(st, facts, digests, repo_root, evidence_root, m.evidence@)->Ok_0;
    lemma_inputs_grow(mid, facts, digests, repo_root, m.inputs@);
    let end = inputs_all_bound(mid, facts, digests, repo_root, m.inputs@)->Ok_0;
    assert(end.errors.len() == 0);
    assert(st.errors.len() == 0);
}

proof fn lemma_evidence_grows(
    st: Check,
    facts: Map<Seq<char>, Fact>,
    digests: Map<Seq<char>, Result<String, String>>,
    repo_root: Seq<char>,
    evidence_root: Option<Seq<char>>,
    bindings: Seq<DigestBinding>,
)
    ensures
        match evidence_all_bound(st, facts, digests, repo_root, evidence_root, bindings) {
            Ok(next) => st.errors.len() <= next.errors.len(),
            Err(_) => true,
        },
    decreases bindings.len(),
{
    if bindings.len() > 0 {
        match evidence_bound(st, facts, digests, repo_root, evidence_root, bindings[0]) {
            Ok(next) => {
                lemma_evidence_grows(
                    next,
                    facts,
                    digests,
                    repo_root,
                    evidence_root,
                    bindings.drop_first(),
                );
            },
            Err(_) => {},
        }
    }
}

proof fn lemma_inputs_grow(
    st: Check,
    facts: Map<Seq<char>, Fact>,
    digests: Map<Seq<char>, Result<String, String>>,
    repo_root: Seq<char>,
    bindings: Seq<InputBinding>,
)
    ensures
        match inputs_all_bound(st, facts, digests, repo_root, bindings) {
            Ok(next) => st.errors.len() <= next.errors.len(),
            Err(_) => true,
        },
    decreases bindings.len(),
{
    if bindings.len() > 0 {
        match bound(
            st,
            facts,
            digests,
            repo_root,
            "input"@,
            bindings[0].path@,
            bindings[0].sha256@,
        ) {
            Ok(next) => {
                lemma_inputs_grow(next, facts, digests, repo_root, bindings.drop_first());
            },
            Err(_) => {},
        }
    }
}

/// What stands at a path below a root, without a symlink on the way, has a digest.
pub open spec fn has_digest(
    facts: Map<Seq<char>, Fact>,
    digests: Map<Seq<char>, Result<String, String>>,
    root: Seq<char>,
    path: Seq<char>,
    expected: Seq<char>,
) -> bool {
    let base = canonical_of(facts, root);
    let place = canonical_of(facts, joined(root, path));
    &&& safe_relative(path)
    &&& base is Ok
    &&& descent(facts, root, root, parts_of(path)) is Ok
    &&& place is Ok
    &&& begins(place->Ok_0, base->Ok_0)
    &&& digests.contains_key(place->Ok_0)
    &&& digests[place->Ok_0] is Ok
    &&& digests[place->Ok_0]->Ok_0@ == expected
}

/// A binding that is accepted without complaint has the digest that it states, and its path was not
/// bound before.
pub proof fn law_accepted_binding_has_its_digest(
    st: Check,
    facts: Map<Seq<char>, Fact>,
    digests: Map<Seq<char>, Result<String, String>>,
    root: Seq<char>,
    label: Seq<char>,
    path: Seq<char>,
    expected: Seq<char>,
)
    requires
        match bound(st, facts, digests, root, label, path, expected) {
            Ok(next) => next.errors.len() <= st.errors.len(),
            Err(_) => false,
        },
    ensures
        has_digest(facts, digests, root, path, expected),
        !st.seen.contains(path),
        bound(st, facts, digests, root, label, path, expected) == Ok::<Check, NeedV>(
            Check { seen: st.seen.insert(path), errors: st.errors },
        ),
{
}

/// Where an evidence binding is looked up: the root and the path below it. Before promotion that is the
/// path below the promoted prefix.
pub open spec fn looked_up_at(
    repo_root: Seq<char>,
    evidence_root: Option<Seq<char>>,
    path: Seq<char>,
) -> Option<(Seq<char>, Seq<char>)> {
    match evidence_root {
        None => Some((repo_root, path)),
        Some(root) => match remainder(path, PROMOTED_EVIDENCE_PREFIX@) {
            Some(below) if parts_of(below).len() > 0 => Some((root, below)),
            _ => None,
        },
    }
}

proof fn lemma_evidence_matches(
    st: Check,
    facts: Map<Seq<char>, Fact>,
    digests: Map<Seq<char>, Result<String, String>>,
    repo_root: Seq<char>,
    evidence_root: Option<Seq<char>>,
    bindings: Seq<DigestBinding>,
)
    requires
        match evidence_all_bound(st, facts, digests, repo_root, evidence_root, bindings) {
            Ok(next) => next.errors.len() == 0,
            Err(_) => false,
        },
    ensures
        forall|k: int|
            0 <= k < bindings.len() ==> ({
                let at = looked_up_at(repo_root, evidence_root, (#[trigger] bindings[k]).path@);
                &&& at is Some
                &&& has_digest(facts, digests, at->Some_0.0, at->Some_0.1, bindings[k].sha256@)
            }),
    decreases bindings.len(),
{
    if bindings.len() > 0 {
        let b = bindings[0];
        let next = evidence_bound(st, facts, digests, repo_root, evidence_root, b)->Ok_0;
        let rest = bindings.drop_first();
        lemma_evidence_grows(st, facts, digests, repo_root, evidence_root, bindings);
        lemma_evidence_grows(next, facts, digests, repo_root, evidence_root, rest);
        lemma_evidence_matches(next, facts, digests, repo_root, evidence_root, rest);
        match looked_up_at(repo_root, evidence_root, b.path@) {
            Some((root, path)) => {
                law_accepted_binding_has_its_digest(
                    st,
                    facts,
                    digests,
                    root,
                    "evidence"@,
                    path,
                    b.sha256@,
                );
            },
            None => {},
        }
        assert forall|k: int| 0 <= k < bindings.len() implies ({
            let at = looked_up_at(repo_root, evidence_root, (#[trigger] bindings[k]).path@);
            &&& at is Some
            &&& has_digest(facts, digests, at->Some_0.0, at->Some_0.1, bindings[k].sha256@)
        }) by {
            if k > 0 {
                assert(rest[k - 1] == bindings[k]);
            }
        }
    }
}

proof fn lemma_inputs_match(
    st: Check,
    facts: Map<Seq<char>, Fact>,
    digests: Map<Seq<char>, Result<String, String>>,
    repo_root: Seq<char>,
    bindings: Seq<InputBinding>,
)
    requires
        match inputs_all_bound(st, facts, digests, repo_root, bindings) {
            Ok(next) => next.errors.len() == 0,
            Err(_) => false,
        },
    ensures
        forall|k: int|
            0 <= k < bindings.len() ==> has_digest(
                facts,
                digests,
                repo_root,
                (#[trigger] bindings[k]).path@,
                bindings[k].sha256@,
            ),
    decreases bindings.len(),
{
    if bindings.len() > 0 {
        let b = bindings[0];
        let next = bound(st, facts, digests, repo_root, "input"@, b.path@, b.sha256@)->Ok_0;
        let rest = bindings.drop_first();
        lemma_inputs_grow(next, facts, digests, repo_root, rest);
        lemma_inputs_match(next, facts, digests, repo_root, rest);
        law_accepted_binding_has_its_digest(
            st,
            facts,
            digests,
            repo_root,
            "input"@,
            b.path@,
            b.sha256@,
        );
        assert forall|k: int| 0 <= k < bindings.len() implies has_digest(
            facts,
            digests,
            repo_root,
            (#[trigger] bindings[k]).path@,
            bindings[k].sha256@,
        ) by {
            if k > 0 {
                assert(rest[k - 1] == bindings[k]);
            }
        }
    }
}

/// Everything that an accepted attestation binds stands where it says, below its root, with the digest
/// that it states.
pub proof fn law_accepted_attestation_matches_the_files(
    m: EvidenceAttestation,
    facts: Map<Seq<char>, Fact>,
    digests: Map<Seq<char>, Result<String, String>>,
    repo_root: Seq<char>,
    evidence_root: Option<Seq<char>>,
    expected_tag: Seq<char>,
    expected_commit: Seq<char>,
)
    requires
        attested(m, facts, digests, repo_root, evidence_root, expected_tag, expected_commit) is Ok,
    ensures
        forall|k: int|
            0 <= k < m.evidence@.len() ==> ({
                let at = looked_up_at(repo_root, evidence_root, (#[trigger] m.evidence@[k]).path@);
                &&& at is Some
                &&& has_digest(facts, digests, at->Some_0.0, at->Some_0.1, m.evidence@[k].sha256@)
            }),
        forall|k: int|
            0 <= k < m.inputs@.len() ==> has_digest(
                facts,
                digests,
                repo_root,
                (#[trigger] m.inputs@[k]).path@,
                m.inputs@[k].sha256@,
            ),
{
    let st = Check {
        seen: Set::empty(),
        errors: heading_errors(m, expected_tag, expected_commit),
    };
    let mid = evidence_all_bound(st, facts, digests, repo_root, evidence_root, m.evidence@)->Ok_0;
    let end = inputs_all_bound(mid, facts, digests, repo_root, m.inputs@)->Ok_0;
    assert(end.errors.len() == 0);
    lemma_inputs_grow(mid, facts, digests, repo_root, m.inputs@);
    lemma_evidence_matches(st, facts, digests, repo_root, evidence_root, m.evidence@);
    lemma_inputs_match(mid, facts, digests, repo_root, m.inputs@);
}

/// Where a path of a bundle is promoted to.
pub open spec fn promoted(below: Seq<char>) -> Seq<char> {
    PROMOTED_EVIDENCE_PREFIX@.push('/') + below
}

/// A path of names that ends with one.
pub open spec fn plain(below: Seq<char>) -> bool {
    safe_relative(below) && ends_named(below)
}

/// What is reached from a directory without a symlink lies below it. It is so of all that is seen of one
/// file system.
pub open spec fn of_one_tree(facts: Map<Seq<char>, Fact>) -> bool {
    forall|dir: Seq<char>, below: Seq<char>| #[trigger]
        descent(facts, dir, dir, parts_of(below)) is Ok && safe_relative(below) && canonical_of(
            facts,
            dir,
        ) is Ok && canonical_of(facts, joined(dir, below)) is Ok ==> begins(
            canonical_of(facts, joined(dir, below))->Ok_0,
            canonical_of(facts, dir)->Ok_0,
        )
}

/// The place that evidence is promoted to stands in the repository, with no symlink on the way.
pub open spec fn promoted_in_place(facts: Map<Seq<char>, Fact>, repo_root: Seq<char>) -> bool {
    &&& canonical_of(facts, repo_root) is Ok
    &&& canonical_of(facts, joined(repo_root, PROMOTED_EVIDENCE_PREFIX@)) is Ok
    &&& descent(facts, repo_root, repo_root, parts_of(PROMOTED_EVIDENCE_PREFIX@)) is Ok
}

proof fn lemma_prefix_parts()
    ensures
        PROMOTED_EVIDENCE_PREFIX@ == "target"@.push('/') + "tp002-release"@,
        parts_of(PROMOTED_EVIDENCE_PREFIX@) == seq![
            PartV::Name("target"@),
            PartV::Name("tp002-release"@),
        ],
        PROMOTED_EVIDENCE_PREFIX@.len() > 0,
        PROMOTED_EVIDENCE_PREFIX@.last() != '/',
        !absolute(PROMOTED_EVIDENCE_PREFIX@),
        "target"@.len() > 0,
        "target"@.last() != '/',
        !absolute("target"@),
        !absolute("tp002-release"@),
{
    reveal_strlit("target/tp002-release");
    reveal_strlit("target");
    reveal_strlit("tp002-release");
    let (a, b) = ("target"@, "tp002-release"@);
    assert(PROMOTED_EVIDENCE_PREFIX@ =~= a.push('/') + b);
    lemma_one_name(a);
    lemma_one_name(b);
    law_path_below(a, b);
    assert(parts_of(a) + parts_of(b) =~= seq![PartV::Name(a), PartV::Name(b)]);
}

/// Only whether a descent succeeds counts, not where it is said to start.
proof fn lemma_descent_root(
    facts: Map<Seq<char>, Fact>,
    a: Seq<char>,
    b: Seq<char>,
    cursor: Seq<char>,
    steps: Seq<PartV>,
)
    ensures
        descent(facts, a, cursor, steps) is Ok == descent(facts, b, cursor, steps) is Ok,
    decreases steps.len(),
{
    if steps.len() > 0 {
        lemma_descent_root(
            facts,
            a,
            b,
            joined(cursor, part_text(steps[0])),
            steps.drop_first(),
        );
    }
}

/// A path below the promoted prefix is the same place, seen from the repository and from there.
proof fn lemma_promoted_place(
    facts: Map<Seq<char>, Fact>,
    digests: Map<Seq<char>, Result<String, String>>,
    repo_root: Seq<char>,
    below: Seq<char>,
    expected: Seq<char>,
)
    requires
        of_one_tree(facts),
        promoted_in_place(facts, repo_root),
        plain(below),
    ensures
        safe_relative(promoted(below)),
        remainder(promoted(below), PROMOTED_EVIDENCE_PREFIX@) == Some(below),
        parts_of(below).len() > 0,
        has_digest(facts, digests, repo_root, promoted(below), expected) == has_digest(
            facts,
            digests,
            joined(repo_root, PROMOTED_EVIDENCE_PREFIX@),
            below,
            expected,
        ),
{
    let prefix = PROMOTED_EVIDENCE_PREFIX@;
    let path = promoted(below);
    let root = joined(repo_root, prefix);
    let (one, two) = (PartV::Name("target"@), PartV::Name("tp002-release"@));
    lemma_prefix_parts();
    law_path_below(prefix, below);
    let steps = parts_of(path);
    assert(parts_of(below).len() > 0);
    assert(safe_relative(path)) by {
        assert(path[0] == prefix[0]);
        assert forall|i: int| 0 <= i < steps.len() implies (#[trigger] steps[i]) is Name by {
            if i >= 2 {
                assert(steps[i] == parts_of(below)[i - 2]);
            }
        }
    }
    let first = joined(repo_root, part_text(one));
    assert(first.len() > 0 && first.last() == "target"@.last());
    assert(joined(first, part_text(two)) =~= root);
    assert(root.len() > 0 && root.last() == prefix.last());
    assert(joined(repo_root, path) =~= joined(root, below));
    assert(steps[0] == one && steps.drop_first()[0] == two);
    assert(steps.drop_first().drop_first() =~= parts_of(below));
    let lead = parts_of(prefix);
    assert(lead[0] == one && lead.drop_first()[0] == two);
    assert(lead.drop_first().drop_first() =~= Seq::<PartV>::empty());
    reveal_with_fuel(descent, 3);
    lemma_descent_root(facts, repo_root, root, root, parts_of(below));
    assert(descent(facts, repo_root, repo_root, steps) is Ok == descent(
        facts,
        root,
        root,
        parts_of(below),
    ) is Ok);
}

/// A binding is taken without complaint just where it has its digest, states one in the right form, and
/// its path was not bound before.
proof fn lemma_clean_binding(
    st: Check,
    facts: Map<Seq<char>, Fact>,
    digests: Map<Seq<char>, Result<String, String>>,
    root: Seq<char>,
    label: Seq<char>,
    path: Seq<char>,
    expected: Seq<char>,
)
    ensures
        clean(st, bound(st, facts, digests, root, label, path, expected)) <==> has_digest(
            facts,
            digests,
            root,
            path,
            expected,
        ) && !st.seen.contains(path) && vstd::utf8::encode_utf8(expected).len() == 64 && hex_bytes(
            vstd::utf8::encode_utf8(expected),
        ),
        clean(st, bound(st, facts, digests, root, label, path, expected)) ==> bound(
            st,
            facts,
            digests,
            root,
            label,
            path,
            expected,
        ) == Ok::<Check, NeedV>(Check { seen: st.seen.insert(path), errors: st.errors }),
{
}

/// A step without a complaint.
spec fn clean(st: Check, r: Result<Check, NeedV>) -> bool {
    r is Ok && r->Ok_0.errors.len() <= st.errors.len()
}

/// The paths bound on one side are those bound on the other, promoted.
spec fn seen_alike(a: Set<Seq<char>>, b: Set<Seq<char>>) -> bool {
    &&& forall|x: Seq<char>| #[trigger] b.contains(x) ==> a.contains(promoted(x))
    &&& forall|y: Seq<char>| #[trigger]
        a.contains(y) ==> exists|x: Seq<char>| #[trigger] b.contains(x) && y == promoted(x)
}

proof fn lemma_promoted_apart(a: Seq<char>, b: Seq<char>)
    requires
        promoted(a) == promoted(b),
    ensures
        a == b,
{
    let n = PROMOTED_EVIDENCE_PREFIX@.len() as int + 1;
    assert(promoted(a).skip(n) =~= a);
    assert(promoted(b).skip(n) =~= b);
}

/// The path below the prefix of a binding that is to be promoted.
pub open spec fn below_of(path: Seq<char>) -> Seq<char> {
    path.skip(PROMOTED_EVIDENCE_PREFIX@.len() as int + 1)
}

/// Every evidence binding names a plain path below the promoted prefix.
pub open spec fn all_promoted(bindings: Seq<DigestBinding>) -> bool {
    forall|k: int|
        0 <= k < bindings.len() ==> plain(below_of((#[trigger] bindings[k]).path@))
            && bindings[k].path@ == promoted(below_of(bindings[k].path@))
}

proof fn lemma_evidence_alike(
    a: Check,
    b: Check,
    facts: Map<Seq<char>, Fact>,
    digests: Map<Seq<char>, Result<String, String>>,
    repo_root: Seq<char>,
    bindings: Seq<DigestBinding>,
)
    requires
        of_one_tree(facts),
        promoted_in_place(facts, repo_root),
        all_promoted(bindings),
        a.errors.len() == 0,
        b.errors.len() == 0,
        seen_alike(a.seen, b.seen),
    ensures
        ({
            let root = joined(repo_root, PROMOTED_EVIDENCE_PREFIX@);
            let x = evidence_all_bound(a, facts, digests, repo_root, None, bindings);
            let y = evidence_all_bound(b, facts, digests, repo_root, Some(root), bindings);
            &&& (x is Ok && x->Ok_0.errors.len() == 0) <==> (y is Ok && y->Ok_0.errors.len() == 0)
            &&& x is Ok && x->Ok_0.errors.len() == 0 ==> {
                &&& seen_alike(x->Ok_0.seen, y->Ok_0.seen)
                &&& forall|p: Seq<char>| #[trigger]
                    y->Ok_0.seen.contains(p) ==> b.seen.contains(p) || exists|k: int|
                        0 <= k < bindings.len() && below_of((#[trigger] bindings[k]).path@) == p
                &&& forall|p: Seq<char>| #[trigger]
                    x->Ok_0.seen.contains(p) ==> a.seen.contains(p) || exists|k: int|
                        0 <= k < bindings.len() && (#[trigger] bindings[k]).path@ == p
            }
        }),
    decreases bindings.len(),
{
    if bindings.len() > 0 {
        let root = joined(repo_root, PROMOTED_EVIDENCE_PREFIX@);
        let path = bindings[0].path@;
        let below = below_of(path);
        let sha = bindings[0].sha256@;
        let rest = bindings.drop_first();
        let x0 = evidence_bound(a, facts, digests, repo_root, None, bindings[0]);
        let y0 = evidence_bound(b, facts, digests, repo_root, Some(root), bindings[0]);
        assert(plain(below) && path == promoted(below));
        lemma_promoted_place(facts, digests, repo_root, below, sha);
        lemma_clean_binding(a, facts, digests, repo_root, "evidence"@, path, sha);
        lemma_clean_binding(b, facts, digests, root, "evidence"@, below, sha);
        assert(a.seen.contains(path) == b.seen.contains(below)) by {
            if a.seen.contains(path) {
                let x = choose|x: Seq<char>| #[trigger] b.seen.contains(x) && path == promoted(x);
                lemma_promoted_apart(x, below);
            }
        }
        assert(clean(a, x0) == clean(b, y0));
        assert(all_promoted(rest)) by {
            assert forall|k: int| 0 <= k < rest.len() implies plain(
                below_of((#[trigger] rest[k]).path@),
            ) && rest[k].path@ == promoted(below_of(rest[k].path@)) by {
                assert(rest[k] == bindings[k + 1]);
            }
        }
        if clean(a, x0) {
            let (c, d) = (x0->Ok_0, y0->Ok_0);
            assert(seen_alike(c.seen, d.seen)) by {
                assert forall|y: Seq<char>| #[trigger] c.seen.contains(y) implies exists|x: Seq<char>|
                    #[trigger] d.seen.contains(x) && y == promoted(x) by {
                    if y == path {
                        assert(d.seen.contains(below));
                    } else {
                        let x = choose|x: Seq<char>| #[trigger] b.seen.contains(x) && y == promoted(x);
                        assert(d.seen.contains(x));
                    }
                }
            }
            lemma_evidence_alike(c, d, facts, digests, repo_root, rest);
            let x = evidence_all_bound(a, facts, digests, repo_root, None, bindings);
            let y = evidence_all_bound(b, facts, digests, repo_root, Some(root), bindings);
            if x is Ok && x->Ok_0.errors.len() == 0 {
                assert forall|p: Seq<char>| #[trigger] y->Ok_0.seen.contains(p) implies b.seen.contains(
                    p,
                ) || exists|k: int|
                    0 <= k < bindings.len() && below_of((#[trigger] bindings[k]).path@) == p by {
                    if !d.seen.contains(p) {
                        let k = choose|k: int|
                            0 <= k < rest.len() && below_of((#[trigger] rest[k]).path@) == p;
                        assert(rest[k] == bindings[k + 1]);
                    } else if p == below {
                        assert(below_of(bindings[0].path@) == p);
                    }
                }
                assert forall|p: Seq<char>| #[trigger] x->Ok_0.seen.contains(p) implies a.seen.contains(
                    p,
                ) || exists|k: int| 0 <= k < bindings.len() && (#[trigger] bindings[k]).path@ == p by {
                    if !c.seen.contains(p) {
                        let k = choose|k: int| 0 <= k < rest.len() && (#[trigger] rest[k]).path@ == p;
                        assert(rest[k] == bindings[k + 1]);
                    } else if p == path {
                        assert(bindings[0].path@ == p);
                    }
                }
            }
        } else {
            if x0 is Ok {
                lemma_evidence_grows(x0->Ok_0, facts, digests, repo_root, None, rest);
            }
            if y0 is Ok {
                lemma_evidence_grows(y0->Ok_0, facts, digests, repo_root, Some(root), rest);
            }
            assert(x0 is Ok ==> x0->Ok_0.errors.len() > 0);
            assert(y0 is Ok ==> y0->Ok_0.errors.len() > 0);
        }
    }
}

proof fn lemma_inputs_alike(
    a: Check,
    b: Check,
    facts: Map<Seq<char>, Fact>,
    digests: Map<Seq<char>, Result<String, String>>,
    repo_root: Seq<char>,
    bindings: Seq<InputBinding>,
)
    requires
        a.errors == b.errors,
        forall|k: int|
            0 <= k < bindings.len() ==> a.seen.contains((#[trigger] bindings[k]).path@)
                == b.seen.contains(bindings[k].path@),
    ensures
        ({
            let x = inputs_all_bound(a, facts, digests, repo_root, bindings);
            let y = inputs_all_bound(b, facts, digests, repo_root, bindings);
            &&& x is Ok <==> y is Ok
            &&& x is Ok ==> x->Ok_0.errors == y->Ok_0.errors
        }),
    decreases bindings.len(),
{
    if bindings.len() > 0 {
        let path = bindings[0].path@;
        let sha = bindings[0].sha256@;
        let rest = bindings.drop_first();
        let x0 = bound(a, facts, digests, repo_root, "input"@, path, sha);
        let y0 = bound(b, facts, digests, repo_root, "input"@, path, sha);
        assert(a.seen.contains(path) == b.seen.contains(path));
        assert(x0 is Ok <==> y0 is Ok);
        if x0 is Ok {
            let (c, d) = (x0->Ok_0, y0->Ok_0);
            assert(c.errors == d.errors);
            assert forall|k: int| 0 <= k < rest.len() implies c.seen.contains(
                (#[trigger] rest[k]).path@,
            ) == d.seen.contains(rest[k].path@) by {
                assert(rest[k] == bindings[k + 1]);
            }
            lemma_inputs_alike(c, d, facts, digests, repo_root, rest);
        }
    }
}

/// Once a bundle stands in its place, it makes no difference from where it is verified: under the
/// promoted directory as its root, or under the repository. An input must not have the path of an
/// evidence binding, with the promoted prefix or without it, since that counts as bound twice on one
/// side only.
pub proof fn law_promotion_changes_no_verdict(
    m: EvidenceAttestation,
    facts: Map<Seq<char>, Fact>,
    digests: Map<Seq<char>, Result<String, String>>,
    repo_root: Seq<char>,
    expected_tag: Seq<char>,
    expected_commit: Seq<char>,
)
    requires
        of_one_tree(facts),
        promoted_in_place(facts, repo_root),
        all_promoted(m.evidence@),
        forall|i: int, k: int|
            0 <= i < m.inputs@.len() && 0 <= k < m.evidence@.len() ==> (#[trigger] m.inputs@[i]).path@
                != below_of((#[trigger] m.evidence@[k]).path@) && m.inputs@[i].path@
                != m.evidence@[k].path@,
    ensures
        attested(
            m,
            facts,
            digests,
            repo_root,
            Some(joined(repo_root, PROMOTED_EVIDENCE_PREFIX@)),
            expected_tag,
            expected_commit,
        ) is Ok <==> attested(
            m,
            facts,
            digests,
            repo_root,
            None,
            expected_tag,
            expected_commit,
        ) is Ok,
{
    let root = joined(repo_root, PROMOTED_EVIDENCE_PREFIX@);
    let st = Check {
        seen: Set::empty(),
        errors: heading_errors(m, expected_tag, expected_commit),
    };
    let x = evidence_all_bound(st, facts, digests, repo_root, None, m.evidence@);
    let y = evidence_all_bound(st, facts, digests, repo_root, Some(root), m.evidence@);
    lemma_evidence_grows(st, facts, digests, repo_root, None, m.evidence@);
    lemma_evidence_grows(st, facts, digests, repo_root, Some(root), m.evidence@);
    if x is Ok {
        lemma_inputs_grow(x->Ok_0, facts, digests, repo_root, m.inputs@);
    }
    if y is Ok {
        lemma_inputs_grow(y->Ok_0, facts, digests, repo_root, m.inputs@);
    }
    if st.errors.len() == 0 {
        lemma_evidence_alike(st, st, facts, digests, repo_root, m.evidence@);
        if x is Ok && x->Ok_0.errors.len() == 0 {
            assert(x->Ok_0.errors =~= y->Ok_0.errors);
            assert forall|k: int| 0 <= k < m.inputs@.len() implies x->Ok_0.seen.contains(
                (#[trigger] m.inputs@[k]).path@,
            ) == y->Ok_0.seen.contains(m.inputs@[k].path@) by {
                let p = m.inputs@[k].path@;
                if x->Ok_0.seen.contains(p) {
                    let j = choose|j: int|
                        0 <= j < m.evidence@.len() && (#[trigger] m.evidence@[j]).path@ == p;
                    assert(m.inputs@[k].path@ != m.evidence@[j].path@);
                }
                if y->Ok_0.seen.contains(p) {
                    let j = choose|j: int|
                        0 <= j < m.evidence@.len() && below_of((#[trigger] m.evidence@[j]).path@) == p;
                    assert(m.inputs@[k].path@ != below_of(m.evidence@[j].path@));
                }
            }
            lemma_inputs_alike(x->Ok_0, y->Ok_0, facts, digests, repo_root, m.inputs@);
        }
    }
}

} // verus!
