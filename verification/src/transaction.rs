//! Verification of the transaction evidence for the shipped storage pairs.

use crate::order::OrdSet;
use crate::text::{all_blank, blank, contains, debug_of, debug_text, decimal, holds_text, lines, lines_of, numeral, same_text, texts};
use vstd::prelude::*;
use vstd::string::*;

verus! {

pub const SQLITE_PROFILE: &'static str = "postgres/sqlite";

pub const POSTGRES_PROFILE: &'static str = "postgres/postgres";

/// The criteria that every required storage pair has to meet.
pub const AC_1: &'static str = "AC-TXN-1";

pub const AC_2: &'static str = "AC-TXN-2";

pub const AC_3: &'static str = "AC-TXN-3";

pub const AC_6: &'static str = "AC-TXN-6";

/// The required profile that a backend name stands for.
pub open spec fn profile_key(backend: Seq<char>) -> Option<&'static str> {
    if backend == "postgres/sqlite"@ || backend == "postgres×sqlite"@ {
        Some(SQLITE_PROFILE)
    } else if backend == "postgres/postgres"@ || backend == "postgres×postgres"@ {
        Some(POSTGRES_PROFILE)
    } else {
        None
    }
}

/// Maps a backend name to the required profile that it stands for.
///
/// Both the slash form of a pair and its axis name are accepted.
pub fn required_profile_key(backend: &str) -> (r: Option<&'static str>)
    ensures
        r == profile_key(backend@),
{
    if same_text(backend, "postgres/sqlite") || same_text(backend, "postgres×sqlite") {
        Some(SQLITE_PROFILE)
    } else if same_text(backend, "postgres/postgres") || same_text(backend, "postgres×postgres") {
        Some(POSTGRES_PROFILE)
    } else {
        None
    }
}

pub open spec fn optional_profile(backend: Seq<char>) -> bool {
    backend == "postgres×memory"@ || backend == "postgres"@
}

/// Whether a backend may stand in the evidence without counting as a required pair.
pub fn is_optional_matrix_profile(backend: &str) -> (r: bool)
    ensures
        r <==> optional_profile(backend@),
{
    same_text(backend, "postgres×memory") || same_text(backend, "postgres")
}

pub struct TransactionEvidenceRow {
    pub suite: String,
    pub spec_name: String,
    pub ac: String,
    pub backend: String,
    pub result: String,
    pub detail: String,
    pub assertions: Vec<String>,
    pub recorded_at: String,
    /// Release rows bind the observation to the exact source under test.
    pub source_revision: Option<String>,
    pub e3_profile: Option<String>,
    pub bound_ms: Option<u64>,
    pub latency_window_timing: Option<String>,
    pub request_id_timing: Option<String>,
    pub e3_evidence_schema_version: Option<u32>,
    pub e3_run_id: Option<String>,
    pub e3_composition_fingerprint: Option<String>,
    pub e3_authority_mode: Option<String>,
}

pub struct TransactionEvidenceError(pub String);

/// What the evidence shows: how many rows, and which criteria of which profiles.
pub struct TransactionEvidenceSummary {
    pub rows: usize,
    pub satisfied: OrdSet<(String, String)>,
}

/// One line of an evidence file, by its number, as a row or as the reason that it is none.
pub struct EvidenceLine {
    pub number: usize,
    pub row: Result<TransactionEvidenceRow, String>,
}

/// The lines of an evidence file that are not blank, or why it could not be read.
pub struct EvidenceFile {
    pub path: String,
    pub lines: Result<Vec<EvidenceLine>, String>,
}

/// The lines of a file that hold something, each with its number.
pub open spec fn numbered_lines(l: Seq<Seq<char>>) -> Seq<(nat, Seq<char>)>
    decreases l.len(),
{
    if l.len() == 0 {
        Seq::empty()
    } else if all_blank(l.last()) {
        numbered_lines(l.drop_last())
    } else {
        numbered_lines(l.drop_last()).push((l.len(), l.last()))
    }
}

pub open spec fn line_views(v: Seq<(usize, String)>) -> Seq<(nat, Seq<char>)> {
    v.map_values(|x: (usize, String)| (x.0 as nat, x.1@))
}

/// The lines of an evidence file to be read as rows.
pub fn evidence_lines(contents: &str) -> (r: Vec<(usize, String)>)
    ensures
        line_views(r@) == numbered_lines(lines_of(contents@, 0)),
{
    let all = lines(contents);
    let ghost l = lines_of(contents@, 0);
    let mut out: Vec<(usize, String)> = Vec::new();
    let mut i: usize = 0;
    assert(l.take(0) =~= Seq::<Seq<char>>::empty());
    assert(line_views(out@) =~= numbered_lines(l.take(0)));
    while i < all.len()
        invariant
            i <= all@.len(),
            texts(all@) == l,
            line_views(out@) == numbered_lines(l.take(i as int)),
        decreases all@.len() - i,
    {
        proof {
            let t = l.take(i as int + 1);
            assert(t.drop_last() =~= l.take(i as int));
            assert(t.last() == all@[i as int]@);
        }
        if !blank(all[i].as_str()) {
            let ghost before = out@;
            out.push((i + 1, all[i].clone()));
            assert(line_views(out@) =~= line_views(before).push(
                ((i + 1) as nat, all@[i as int]@),
            ));
        }
        i = i + 1;
    }
    assert(l.take(i as int) =~= l);
    out
}

/// The state of the check.
pub ghost struct TxnV {
    pub rows: nat,
    pub satisfied: Set<(Seq<char>, Seq<char>)>,
    pub errors: Seq<Seq<char>>,
}

pub open spec fn told(st: TxnV, cause: bool, text: Seq<char>) -> TxnV {
    if cause {
        TxnV { errors: st.errors.push(text), ..st }
    } else {
        st
    }
}

pub open spec fn required_ac(ac: Seq<char>) -> bool {
    ac == AC_1@ || ac == AC_2@ || ac == AC_3@ || ac == AC_6@
}

fn is_required_ac(ac: &str) -> (r: bool)
    ensures
        r <==> required_ac(ac@),
{
    same_text(ac, AC_1) || same_text(ac, AC_2) || same_text(ac, AC_3) || same_text(ac, AC_6)
}

/// Some assertion admits a gap.
pub open spec fn has_gap(assertions: Seq<String>) -> bool {
    exists|i: int| 0 <= i < assertions.len() && holds_text((#[trigger] assertions[i])@, "GAP"@)
}

fn admits_gap(assertions: &Vec<String>) -> (r: bool)
    ensures
        r <==> has_gap(assertions@),
{
    let mut i: usize = 0;
    while i < assertions.len()
        invariant
            i <= assertions@.len(),
            forall|j: int| 0 <= j < i ==> !holds_text((#[trigger] assertions@[j])@, "GAP"@),
        decreases assertions@.len() - i,
    {
        if contains(assertions[i].as_str(), "GAP") {
            assert(holds_text(assertions@[i as int]@, "GAP"@));
            return true;
        }
        i = i + 1;
    }
    false
}

/// Only a passing row with assertions and without a gap shows anything.
pub open spec fn result_checked(st: TxnV, context: Seq<char>, row: TransactionEvidenceRow) -> TxnV {
    if row.result@ == "pass"@ {
        let st = told(st, row.assertions@.len() == 0, context + ": pass row has no assertions"@);
        told(st, has_gap(row.assertions@), context + ": pass row contains a coverage GAP"@)
    } else if row.result@ == "n/a"@ {
        told(
            st,
            true,
            context + ": row-level n/a is not authorized; exact-pair AC evidence must pass"@,
        )
    } else {
        told(st, true, context + ": result must be pass, got "@ + debug_of(row.result@))
    }
}

/// One row of the evidence.
pub open spec fn row_checked(st: TxnV, context: Seq<char>, row: TransactionEvidenceRow) -> TxnV {
    let st = TxnV { rows: st.rows + 1, ..st };
    let st = told(
        st,
        row.suite@ != "external_transaction_contract_matrix_tests"@,
        context + ": unexpected suite "@ + debug_of(row.suite@),
    );
    let st = told(
        st,
        row.spec_name@ != "TP-003 §3.10"@,
        context + ": unexpected spec "@ + debug_of(row.spec_name@),
    );
    let profile = profile_key(row.backend@);
    if profile is None && !optional_profile(row.backend@) {
        told(st, true, context + ": profile is not an exact shipped Postgres storage pair"@)
    } else if !required_ac(row.ac@) {
        told(st, true, context + ": AC is outside the required exact-pair contract"@)
    } else {
        let st = told(st, all_blank(row.recorded_at@), context + ": recorded_at is empty"@);
        match profile {
            Some(key) => if st.satisfied.contains((key@, row.ac@)) {
                told(st, true, context + ": duplicate authority row"@)
            } else {
                result_checked(
                    TxnV { satisfied: st.satisfied.insert((key@, row.ac@)), ..st },
                    context,
                    row,
                )
            },
            None => result_checked(st, context, row),
        }
    }
}

/// How complaints name a row.
pub open spec fn row_context(path: Seq<char>, number: nat, row: TransactionEvidenceRow) -> Seq<char> {
    path + " line "@ + numeral(number) + " ["@ + row.backend@ + " "@ + row.ac@ + "]"@
}

pub open spec fn line_checked(st: TxnV, path: Seq<char>, line: EvidenceLine) -> TxnV {
    match line.row {
        Ok(row) => row_checked(st, row_context(path, line.number as nat, row), row),
        Err(m) => told(
            st,
            true,
            path + " line "@ + numeral(line.number as nat) + ": malformed TP-003 row: "@ + m@,
        ),
    }
}

pub open spec fn lines_checked(st: TxnV, path: Seq<char>, lines: Seq<EvidenceLine>) -> TxnV
    decreases lines.len(),
{
    if lines.len() == 0 {
        st
    } else {
        lines_checked(line_checked(st, path, lines[0]), path, lines.drop_first())
    }
}

pub open spec fn file_checked(st: TxnV, file: EvidenceFile) -> TxnV {
    match file.lines {
        Err(m) => told(
            st,
            true,
            "cannot read transaction evidence "@ + file.path@ + ": "@ + m@,
        ),
        Ok(lines) => told(
            lines_checked(st, file.path@, lines@),
            lines@.len() == 0,
            "transaction evidence file "@ + file.path@ + " is empty"@,
        ),
    }
}

pub open spec fn files_checked(st: TxnV, files: Seq<EvidenceFile>) -> TxnV
    decreases files.len(),
{
    if files.len() == 0 {
        st
    } else {
        files_checked(file_checked(st, files[0]), files.drop_first())
    }
}

pub open spec fn pair_checked(st: TxnV, profile: &'static str, ac: &'static str) -> TxnV {
    told(
        st,
        !st.satisfied.contains((profile@, ac@)),
        "missing required transaction evidence: profile="@ + profile@ + " ac="@ + ac@,
    )
}

pub open spec fn profile_checked(st: TxnV, profile: &'static str) -> TxnV {
    let st = pair_checked(st, profile, AC_1);
    let st = pair_checked(st, profile, AC_2);
    let st = pair_checked(st, profile, AC_3);
    pair_checked(st, profile, AC_6)
}

/// What the evidence as a whole shows.
pub open spec fn evidence_checked(files: Seq<EvidenceFile>) -> TxnV {
    let st = TxnV { rows: 0, satisfied: Set::empty(), errors: Seq::empty() };
    if files.len() == 0 {
        told(st, true, "at least one transaction evidence file is required"@)
    } else {
        let st = files_checked(st, files);
        profile_checked(profile_checked(st, SQLITE_PROFILE), POSTGRES_PROFILE)
    }
}

pub open spec fn complaint_texts(v: Seq<TransactionEvidenceError>) -> Seq<Seq<char>> {
    v.map_values(|e: TransactionEvidenceError| e.0@)
}

/// How many rows the files hold.
pub open spec fn row_total(files: Seq<EvidenceFile>) -> nat
    decreases files.len(),
{
    if files.len() == 0 {
        0
    } else {
        (match files[0].lines {
            Ok(l) => l@.len(),
            Err(_) => 0,
        }) + row_total(files.drop_first())
    }
}

struct Ledger {
    rows: usize,
    satisfied: OrdSet<(String, String)>,
    errors: Vec<TransactionEvidenceError>,
}

impl Ledger {
    spec fn view(&self) -> TxnV {
        TxnV {
            rows: self.rows as nat,
            satisfied: self.satisfied@,
            errors: complaint_texts(self.errors@),
        }
    }

    fn tell(&mut self, cause: bool, text: String)
        ensures
            final(self)@ == told(old(self)@, cause, text@),
    {
        let ghost before = self.errors@;
        if cause {
            self.errors.push(TransactionEvidenceError(text));
            assert(complaint_texts(self.errors@) =~= complaint_texts(before).push(text@));
        }
    }

    fn check_result(&mut self, context: &str, row: &TransactionEvidenceRow)
        ensures
            final(self)@ == result_checked(old(self)@, context@, *row),
    {
        if same_text(row.result.as_str(), "pass") {
            self.tell(
                row.assertions.len() == 0,
                context.to_owned().concat(": pass row has no assertions"),
            );
            self.tell(
                admits_gap(&row.assertions),
                context.to_owned().concat(": pass row contains a coverage GAP"),
            );
        } else if same_text(row.result.as_str(), "n/a") {
            self.tell(
                true,
                context.to_owned().concat(
                    ": row-level n/a is not authorized; exact-pair AC evidence must pass",
                ),
            );
        } else {
            self.tell(
                true,
                context.to_owned().concat(": result must be pass, got ").concat(
                    debug_text(row.result.as_str()).as_str(),
                ),
            );
        }
    }

    fn check_row(&mut self, context: &str, row: &TransactionEvidenceRow)
        requires
            old(self)@.rows < usize::MAX,
        ensures
            final(self)@ == row_checked(old(self)@, context@, *row),
    {
        self.rows = self.rows + 1;
        self.tell(
            !same_text(row.suite.as_str(), "external_transaction_contract_matrix_tests"),
            context.to_owned().concat(": unexpected suite ").concat(
                debug_text(row.suite.as_str()).as_str(),
            ),
        );
        self.tell(
            !same_text(row.spec_name.as_str(), "TP-003 §3.10"),
            context.to_owned().concat(": unexpected spec ").concat(
                debug_text(row.spec_name.as_str()).as_str(),
            ),
        );
        let profile = required_profile_key(row.backend.as_str());
        if profile.is_none() && !is_optional_matrix_profile(row.backend.as_str()) {
            self.tell(
                true,
                context.to_owned().concat(
                    ": profile is not an exact shipped Postgres storage pair",
                ),
            );
            return;
        }
        if !is_required_ac(row.ac.as_str()) {
            self.tell(
                true,
                context.to_owned().concat(": AC is outside the required exact-pair contract"),
            );
            return;
        }
        self.tell(
            blank(row.recorded_at.as_str()),
            context.to_owned().concat(": recorded_at is empty"),
        );
        match profile {
            Some(key) => {
                let pair = (key.to_owned(), row.ac.clone());
                if self.satisfied.contains(&pair) {
                    self.tell(true, context.to_owned().concat(": duplicate authority row"));
                    return;
                }
                self.satisfied.insert(pair);
            },
            None => {},
        }
        self.check_result(context, row);
    }

    fn check_file(&mut self, file: &EvidenceFile)
        requires
            old(self)@.rows + row_total(seq![*file]) <= usize::MAX,
        ensures
            final(self)@ == file_checked(old(self)@, *file),
            final(self)@.rows <= old(self)@.rows + row_total(seq![*file]),
    {
        assert(seq![*file].drop_first() =~= Seq::<EvidenceFile>::empty());
        reveal_with_fuel(row_total, 2);
        match &file.lines {
            Err(m) => {
                self.tell(
                    true,
                    "cannot read transaction evidence ".to_owned().concat(
                        file.path.as_str(),
                    ).concat(": ").concat(m.as_str()),
                );
            },
            Ok(lines) => {
                let ghost start = self@;
                let ghost all = lines@;
                let mut i: usize = 0;
                assert(all.skip(0) =~= all);
                while i < lines.len()
                    invariant
                        i <= lines@.len(),
                        all == lines@,
                        self@.rows <= start.rows + i,
                        start.rows + all.len() <= usize::MAX,
                        lines_checked(self@, file.path@, all.skip(i as int)) == lines_checked(
                            start,
                            file.path@,
                            all,
                        ),
                    decreases lines@.len() - i,
                {
                    proof {
                        assert(all.skip(i as int)[0] == lines@[i as int]);
                        assert(all.skip(i as int).drop_first() =~= all.skip(i as int + 1));
                    }
                    let line = &lines[i];
                    match &line.row {
                        Ok(row) => {
                            let context = file.path.clone().concat(" line ").concat(
                                decimal(line.number as u64).as_str(),
                            ).concat(" [").concat(row.backend.as_str()).concat(" ").concat(
                                row.ac.as_str(),
                            ).concat("]");
                            self.check_row(context.as_str(), row);
                        },
                        Err(m) => {
                            self.tell(
                                true,
                                file.path.clone().concat(" line ").concat(
                                    decimal(line.number as u64).as_str(),
                                ).concat(": malformed TP-003 row: ").concat(m.as_str()),
                            );
                        },
                    }
                    i = i + 1;
                }
                assert(all.skip(i as int) =~= Seq::<EvidenceLine>::empty());
                self.tell(
                    lines.len() == 0,
                    "transaction evidence file ".to_owned().concat(file.path.as_str()).concat(
                        " is empty",
                    ),
                );
            },
        }
    }

    fn check_pair(&mut self, profile: &'static str, ac: &'static str)
        ensures
            final(self)@ == pair_checked(old(self)@, profile, ac),
    {
        let pair = (profile.to_owned(), ac.to_owned());
        let missing = !self.satisfied.contains(&pair);
        self.tell(
            missing,
            "missing required transaction evidence: profile=".to_owned().concat(profile).concat(
                " ac=",
            ).concat(ac),
        );
    }

    fn check_profile(&mut self, profile: &'static str)
        ensures
            final(self)@ == profile_checked(old(self)@, profile),
    {
        self.check_pair(profile, AC_1);
        self.check_pair(profile, AC_2);
        self.check_pair(profile, AC_3);
        self.check_pair(profile, AC_6);
    }
}

/// Verifies the required criteria for both storage pairs.
///
/// Every required row has to pass. Gaps, other results, duplicates, unknown profiles or criteria, and
/// missing pairs fail closed.
pub fn verify_transaction_evidence(files: &Vec<EvidenceFile>) -> (r: Result<
    TransactionEvidenceSummary,
    Vec<TransactionEvidenceError>,
>)
    requires
        row_total(files@) <= usize::MAX,
    ensures
        match r {
            Ok(s) => evidence_checked(files@) == (TxnV {
                rows: s.rows as nat,
                satisfied: s.satisfied@,
                errors: Seq::empty(),
            }),
            Err(e) => e@.len() > 0 && evidence_checked(files@).errors == complaint_texts(e@),
        },
{
    let mut ledger = Ledger { rows: 0, satisfied: OrdSet::new(), errors: Vec::new() };
    assert(complaint_texts(ledger.errors@) =~= Seq::<Seq<char>>::empty());
    assert(ledger@ == TxnV { rows: 0, satisfied: Set::empty(), errors: Seq::empty() });
    if files.len() == 0 {
        ledger.tell(true, "at least one transaction evidence file is required".to_owned());
        assert(complaint_texts(ledger.errors@).len() == ledger.errors@.len());
        return Err(ledger.errors);
    }
    let ghost start = ledger@;
    let ghost all = files@;
    let mut i: usize = 0;
    assert(all.skip(0) =~= all);
    while i < files.len()
        invariant
            i <= files@.len(),
            all == files@,
            ledger@.rows + row_total(all.skip(i as int)) <= usize::MAX,
            files_checked(ledger@, all.skip(i as int)) == files_checked(start, all),
        decreases files@.len() - i,
    {
        proof {
            assert(all.skip(i as int)[0] == files@[i as int]);
            assert(all.skip(i as int).drop_first() =~= all.skip(i as int + 1));
            assert(seq![files@[i as int]].drop_first() =~= Seq::<EvidenceFile>::empty());
            reveal_with_fuel(row_total, 2);
        }
        ledger.check_file(&files[i]);
        i = i + 1;
    }
    assert(all.skip(i as int) =~= Seq::<EvidenceFile>::empty());
    ledger.check_profile(SQLITE_PROFILE);
    ledger.check_profile(POSTGRES_PROFILE);
    if ledger.errors.len() == 0 {
        assert(ledger@.errors =~= Seq::<Seq<char>>::empty());
        Ok(TransactionEvidenceSummary { rows: ledger.rows, satisfied: ledger.satisfied })
    } else {
        Err(ledger.errors)
    }
}

/// Accepted evidence shows every required criterion for both storage pairs.
pub proof fn law_accepted_evidence_covers_every_pair(
    files: Seq<EvidenceFile>,
    profile: &'static str,
    ac: Seq<char>,
)
    requires
        evidence_checked(files).errors.len() == 0,
        profile == SQLITE_PROFILE || profile == POSTGRES_PROFILE,
        required_ac(ac),
    ensures
        evidence_checked(files).satisfied.contains((profile@, ac)),
{
    let st = files_checked(
        TxnV { rows: 0, satisfied: Set::empty(), errors: Seq::empty() },
        files,
    );
    let mid = profile_checked(st, SQLITE_PROFILE);
    let end = profile_checked(mid, POSTGRES_PROFILE);
    assert(end.satisfied == st.satisfied);
    assert(mid.errors.len() <= end.errors.len());
}

/// A row of the right suite for a known profile and a known criterion, passing with assertions that
/// admit no gap.
pub open spec fn sound_row(row: TransactionEvidenceRow) -> bool {
    &&& row.suite@ == "external_transaction_contract_matrix_tests"@
    &&& row.spec_name@ == "TP-003 §3.10"@
    &&& profile_key(row.backend@) is Some || optional_profile(row.backend@)
    &&& required_ac(row.ac@)
    &&& !all_blank(row.recorded_at@)
    &&& row.result@ == "pass"@
    &&& row.assertions@.len() > 0
    &&& !has_gap(row.assertions@)
}

pub open spec fn sound_line(line: EvidenceLine) -> bool {
    line.row is Ok && sound_row(line.row->Ok_0)
}

pub open spec fn sound_file(file: EvidenceFile) -> bool {
    &&& file.lines is Ok
    &&& file.lines->Ok_0@.len() > 0
    &&& forall|k: int| 0 <= k < file.lines->Ok_0@.len() ==> sound_line(#[trigger] file.lines->Ok_0@[k])
}

proof fn lemma_row_sound(st: TxnV, context: Seq<char>, row: TransactionEvidenceRow)
    ensures
        row_checked(st, context, row).errors.len() >= st.errors.len(),
        row_checked(st, context, row).errors.len() == 0 ==> sound_row(row),
{
}

proof fn lemma_lines_sound(st: TxnV, path: Seq<char>, lines: Seq<EvidenceLine>)
    ensures
        lines_checked(st, path, lines).errors.len() >= st.errors.len(),
        lines_checked(st, path, lines).errors.len() == 0 ==> forall|k: int|
            0 <= k < lines.len() ==> sound_line(#[trigger] lines[k]),
    decreases lines.len(),
{
    if lines.len() > 0 {
        let next = line_checked(st, path, lines[0]);
        let rest = lines.drop_first();
        match lines[0].row {
            Ok(row) => {
                lemma_row_sound(st, row_context(path, lines[0].number as nat, row), row);
            },
            Err(_) => {},
        }
        lemma_lines_sound(next, path, rest);
        if lines_checked(st, path, lines).errors.len() == 0 {
            assert forall|k: int| 0 <= k < lines.len() implies sound_line(#[trigger] lines[k]) by {
                if k > 0 {
                    assert(rest[k - 1] == lines[k]);
                }
            }
        }
    }
}

proof fn lemma_files_sound(st: TxnV, files: Seq<EvidenceFile>)
    ensures
        files_checked(st, files).errors.len() >= st.errors.len(),
        files_checked(st, files).errors.len() == 0 ==> forall|k: int|
            0 <= k < files.len() ==> sound_file(#[trigger] files[k]),
    decreases files.len(),
{
    if files.len() > 0 {
        let file = files[0];
        let rest = files.drop_first();
        match file.lines {
            Ok(lines) => {
                lemma_lines_sound(st, file.path@, lines@);
            },
            Err(_) => {},
        }
        lemma_files_sound(file_checked(st, file), rest);
        if files_checked(st, files).errors.len() == 0 {
            assert forall|k: int| 0 <= k < files.len() implies sound_file(#[trigger] files[k]) by {
                if k > 0 {
                    assert(rest[k - 1] == files[k]);
                }
            }
        }
    }
}

/// Every file of accepted evidence can be read and holds rows, and every row of it is sound: gaps,
/// other results, and unknown profiles or criteria fail closed.
pub proof fn law_accepted_evidence_is_sound(files: Seq<EvidenceFile>, k: int)
    requires
        evidence_checked(files).errors.len() == 0,
        0 <= k < files.len(),
    ensures
        sound_file(files[k]),
{
    let st = TxnV { rows: 0, satisfied: Set::empty(), errors: Seq::empty() };
    lemma_files_sound(st, files);
    let mid = profile_checked(files_checked(st, files), SQLITE_PROFILE);
    assert(mid.errors.len() <= profile_checked(mid, POSTGRES_PROFILE).errors.len());
}

/// The pair that a row speaks for, where it is a required one.
pub open spec fn pair_of(line: EvidenceLine) -> Option<(Seq<char>, Seq<char>)> {
    match line.row {
        Ok(row) => match profile_key(row.backend@) {
            Some(key) => if required_ac(row.ac@) {
                Some((key@, row.ac@))
            } else {
                None
            },
            None => None,
        },
        Err(_) => None,
    }
}

/// The required pairs that lines speak for, in order.
pub open spec fn line_pairs(lines: Seq<EvidenceLine>) -> Seq<(Seq<char>, Seq<char>)>
    decreases lines.len(),
{
    if lines.len() == 0 {
        Seq::empty()
    } else {
        match pair_of(lines[0]) {
            Some(p) => seq![p] + line_pairs(lines.drop_first()),
            None => line_pairs(lines.drop_first()),
        }
    }
}

/// The required pairs that files speak for, in order.
pub open spec fn file_pairs(files: Seq<EvidenceFile>) -> Seq<(Seq<char>, Seq<char>)>
    decreases files.len(),
{
    if files.len() == 0 {
        Seq::empty()
    } else {
        match files[0].lines {
            Ok(lines) => line_pairs(lines@) + file_pairs(files.drop_first()),
            Err(_) => file_pairs(files.drop_first()),
        }
    }
}

/// Pairs that come up once each and were not shown before; at the end they are shown, with what was.
spec fn fresh_pairs(st: TxnV, end: TxnV, ps: Seq<(Seq<char>, Seq<char>)>) -> bool {
    &&& ps.no_duplicates()
    &&& forall|p: (Seq<char>, Seq<char>)| #[trigger] ps.contains(p) ==> !st.satisfied.contains(p)
    &&& forall|p: (Seq<char>, Seq<char>)| #[trigger]
        end.satisfied.contains(p) <==> st.satisfied.contains(p) || ps.contains(p)
}

proof fn lemma_fresh_joined(
    a: TxnV,
    b: TxnV,
    c: TxnV,
    ps: Seq<(Seq<char>, Seq<char>)>,
    qs: Seq<(Seq<char>, Seq<char>)>,
)
    requires
        fresh_pairs(a, b, ps),
        fresh_pairs(b, c, qs),
    ensures
        fresh_pairs(a, c, ps + qs),
{
    let all = ps + qs;
    assert forall|p: (Seq<char>, Seq<char>)| #[trigger] all.contains(p) <==> ps.contains(p)
        || qs.contains(p) by {
        if ps.contains(p) {
            let i = choose|i: int| 0 <= i < ps.len() && ps[i] == p;
            assert(all[i] == p);
        }
        if qs.contains(p) {
            let i = choose|i: int| 0 <= i < qs.len() && qs[i] == p;
            assert(all[ps.len() + i] == p);
        }
    }
    assert forall|i: int, j: int| 0 <= i < all.len() && 0 <= j < all.len() && i != j implies all[i]
        != all[j] by {
        if i < ps.len() {
            assert(ps.contains(ps[i]));
            assert(b.satisfied.contains(ps[i]));
        } else {
            assert(qs.contains(qs[i - ps.len()]));
        }
        if j < ps.len() {
            assert(ps.contains(ps[j]));
            assert(b.satisfied.contains(ps[j]));
        } else {
            assert(qs.contains(qs[j - ps.len()]));
        }
    }
}

proof fn lemma_lines_fresh(st: TxnV, path: Seq<char>, lines: Seq<EvidenceLine>)
    requires
        lines_checked(st, path, lines).errors.len() == 0,
    ensures
        fresh_pairs(st, lines_checked(st, path, lines), line_pairs(lines)),
    decreases lines.len(),
{
    if lines.len() > 0 {
        let next = line_checked(st, path, lines[0]);
        let rest = lines.drop_first();
        lemma_lines_sound(next, path, rest);
        lemma_lines_fresh(next, path, rest);
        let ps = match pair_of(lines[0]) {
            Some(p) => seq![p],
            None => Seq::empty(),
        };
        assert(fresh_pairs(st, next, ps)) by {
            match pair_of(lines[0]) {
                Some(p) => {
                    assert(ps[0] == p);
                },
                None => {},
            }
        }
        lemma_fresh_joined(st, next, lines_checked(st, path, lines), ps, line_pairs(rest));
        assert(line_pairs(lines) =~= ps + line_pairs(rest));
    }
}

proof fn lemma_files_fresh(st: TxnV, files: Seq<EvidenceFile>)
    requires
        files_checked(st, files).errors.len() == 0,
    ensures
        fresh_pairs(st, files_checked(st, files), file_pairs(files)),
    decreases files.len(),
{
    if files.len() > 0 {
        let next = file_checked(st, files[0]);
        let rest = files.drop_first();
        lemma_files_sound(next, rest);
        lemma_files_fresh(next, rest);
        match files[0].lines {
            Ok(lines) => {
                lemma_lines_fresh(st, files[0].path@, lines@);
                lemma_fresh_joined(
                    st,
                    next,
                    files_checked(st, files),
                    line_pairs(lines@),
                    file_pairs(rest),
                );
            },
            Err(_) => {},
        }
    }
}

/// No required pair is spoken for twice in accepted evidence, over all its files, and what is shown is
/// just what is spoken for.
pub proof fn law_accepted_evidence_speaks_once(files: Seq<EvidenceFile>)
    requires
        evidence_checked(files).errors.len() == 0,
    ensures
        file_pairs(files).no_duplicates(),
        evidence_checked(files).satisfied == file_pairs(files).to_set(),
{
    let st = TxnV { rows: 0, satisfied: Set::empty(), errors: Seq::empty() };
    let mid = profile_checked(files_checked(st, files), SQLITE_PROFILE);
    let end = profile_checked(mid, POSTGRES_PROFILE);
    assert(mid.errors.len() <= end.errors.len());
    lemma_files_fresh(st, files);
    assert(end.satisfied == files_checked(st, files).satisfied);
    assert(evidence_checked(files).satisfied =~= file_pairs(files).to_set());
}

/// The paths of the evidence files, as they were given.
pub fn evidence_paths(paths: Vec<String>) -> (r: Vec<String>)
    ensures
        r@ == paths@,
{
    paths
}

} // verus!
