//! Matching claims against the evidence ledger.
//!
//! Each claim gets a verdict and, importantly, the reason for it. A verdict without its supporting
//! line of output is just another assertion the user has to take on faith.

use vstd::prelude::*;

use crate::claims::{Claim, ClaimKind, ClaimModel};
use crate::evidence;
use crate::evidence::{FileWriteModel, GitOp, GitOpKind, GitOpModel, Ledger, LedgerModel};
use crate::lists;
use crate::runners;
use crate::runners::{CaveatModel, CheckKind, CheckRun, CheckRunModel, Outcome};
use crate::text;

verus! {

#[derive(Debug, Clone, Copy, PartialEq, Eq, Structural, PartialOrd, Ord)]
pub enum Verdict {
    /// Evidence in the transcript backs the claim.
    Supported,
    /// The claim could not be checked (no matching evidence recorded, and no way to check live).
    Inconclusive,
    /// Evidence exists but qualifies the claim: a stale run, a subset, a suppressed failure.
    Qualified,
    /// Nothing in the transcript supports the claim.
    Unsupported,
    /// The evidence says the opposite.
    Contradicted,
}

impl DeepView for Verdict {
    type V = Verdict;

    open spec fn deep_view(&self) -> Verdict {
        *self
    }
}

/// How bad a verdict is.
pub open spec fn badness(v: Verdict) -> int {
    match v {
        Verdict::Supported => 0,
        Verdict::Inconclusive => 1,
        Verdict::Qualified => 2,
        Verdict::Unsupported => 3,
        Verdict::Contradicted => 4,
    }
}

/// The verdict is one that the user has to look into.
pub open spec fn is_trouble(v: Verdict) -> bool {
    v == Verdict::Unsupported || v == Verdict::Contradicted || v == Verdict::Qualified
}

/// A verdict in one word.
pub open spec fn verdict_label(v: Verdict) -> Seq<char> {
    match v {
        Verdict::Supported => "supported"@,
        Verdict::Inconclusive => "inconclusive"@,
        Verdict::Qualified => "qualified"@,
        Verdict::Unsupported => "unsupported"@,
        Verdict::Contradicted => "contradicted"@,
    }
}

impl Verdict {
    pub fn is_problem(&self) -> (r: bool)
        ensures
            r == is_trouble(*self),
    {
        match self {
            Verdict::Unsupported | Verdict::Contradicted | Verdict::Qualified => true,
            _ => false,
        }
    }

    pub fn label(&self) -> (r: &'static str)
        ensures
            r@ == verdict_label(*self),
    {
        match self {
            Verdict::Supported => "supported",
            Verdict::Inconclusive => "inconclusive",
            Verdict::Qualified => "qualified",
            Verdict::Unsupported => "unsupported",
            Verdict::Contradicted => "contradicted",
        }
    }

    /// How bad the verdict is, from 0 up.
    pub fn severity(&self) -> (r: u8)
        ensures
            r == badness(*self),
    {
        match self {
            Verdict::Supported => 0,
            Verdict::Inconclusive => 1,
            Verdict::Qualified => 2,
            Verdict::Unsupported => 3,
            Verdict::Contradicted => 4,
        }
    }
}

#[derive(Debug)]
pub struct Checked {
    pub claim: Claim,
    pub verdict: Verdict,
    /// Why this verdict, in one sentence.
    pub reason: String,
    /// The line of recorded output the verdict rests on.
    pub evidence: Option<String>,
}

/// What a [`Checked`] stands for.
#[verifier::ext_equal]
pub struct CheckedModel {
    pub claim: ClaimModel,
    pub verdict: Verdict,
    pub reason: Seq<char>,
    pub evidence: Option<Seq<char>>,
}

impl DeepView for Checked {
    type V = CheckedModel;

    open spec fn deep_view(&self) -> CheckedModel {
        CheckedModel {
            claim: self.claim.deep_view(),
            verdict: self.verdict,
            reason: self.reason@,
            evidence: self.evidence.deep_view(),
        }
    }
}

impl Clone for Checked {
    fn clone(&self) -> (r: Self)
        ensures
            r.deep_view() == self.deep_view(),
    {
        Checked {
            claim: self.claim.clone(),
            verdict: self.verdict,
            reason: self.reason.clone(),
            evidence: text::copied(&self.evidence),
        }
    }
}

/// Options affecting how far verification goes.
///
/// What was found in the working tree is handed in with them: whether git reports uncommitted
/// changes, and which of the claimed files exist. [`live_lookups`] says what to look for.
#[derive(Debug)]
pub struct Options {
    /// Consult the working tree and git repository, not just the transcript.
    pub live: bool,
    /// Directory to run live checks in.
    pub cwd: Option<String>,
    /// Whether the working tree has uncommitted changes, where git could be asked.
    pub tree_dirty: Option<bool>,
    /// The claimed files that exist, as the claims name them.
    pub existing: Vec<String>,
}

/// What [`Options`] stand for.
#[verifier::ext_equal]
pub struct OptionsModel {
    pub live: bool,
    pub cwd: Option<Seq<char>>,
    pub tree_dirty: Option<bool>,
    pub existing: Seq<Seq<char>>,
}

impl DeepView for Options {
    type V = OptionsModel;

    open spec fn deep_view(&self) -> OptionsModel {
        OptionsModel {
            live: self.live,
            cwd: self.cwd.deep_view(),
            tree_dirty: self.tree_dirty,
            existing: self.existing.deep_view(),
        }
    }
}

impl Default for Options {
    fn default() -> (o: Self)
        ensures
            o.deep_view() == (OptionsModel {
                live: false,
                cwd: None,
                tree_dirty: None,
                existing: Seq::empty(),
            }),
    {
        let o = Options { live: false, cwd: None, tree_dirty: None, existing: Vec::new() };
        assert(o.existing.deep_view() =~= Seq::empty());
        o
    }
}

impl Clone for Options {
    fn clone(&self) -> (o: Self)
        ensures
            o.deep_view() == self.deep_view(),
    {
        let mut existing: Vec<String> = Vec::new();
        for i in 0..self.existing.len()
            invariant
                existing@.len() == i,
                forall|k: int| 0 <= k < i ==> (#[trigger] existing@[k])@ == self.existing@[k]@,
        {
            existing.push(self.existing[i].clone());
        }
        assert(existing.deep_view() =~= self.existing.deep_view());
        let cwd = text::copied(&self.cwd);
        Options { live: self.live, cwd, tree_dirty: self.tree_dirty, existing }
    }
}

fn judged(claim: &Claim, verdict: Verdict, reason: String, evidence: Option<String>) -> (r: Checked)
    ensures
        r.deep_view() == (CheckedModel {
            claim: claim.deep_view(),
            verdict,
            reason: reason@,
            evidence: evidence.deep_view(),
        }),
{
    Checked { claim: claim.clone(), verdict, reason, evidence }
}

// ---------------------------------------------------------------- runs

/// The last run of a kind before a point in the transcript. Only evidence that predates a claim
/// can support it.
pub open spec fn last_run_before(checks: Seq<CheckRunModel>, kind: CheckKind, seq: usize) -> Option<
    CheckRunModel,
> {
    lists::last_such(checks, |c: CheckRunModel| c.kind == kind && c.seq < seq)
}

/// The last two components of a path.
pub open spec fn shortened(p: Seq<char>) -> Seq<char> {
    let parts = text::parts_of(text::back_trimmed(p, text::among("/"@)), '/');
    if parts.len() <= 2 {
        p
    } else {
        text::joined(parts.skip(parts.len() - 2), "/"@)
    }
}

/// A write that a run from before it says nothing about: one that succeeded, between the run and
/// the claim, to a file that is neither a test nor documentation.
pub open spec fn outdates(w: FileWriteModel, run_seq: usize, claim_seq: usize) -> bool {
    &&& w.succeeded
    &&& w.seq > run_seq
    &&& w.seq < claim_seq
    &&& !evidence::looks_like_test(w.path)
    &&& !evidence::is_doc(w.path)
}

/// The short paths of such writes.
pub open spec fn outdated_paths(writes: Seq<FileWriteModel>, run_seq: usize, claim_seq: usize) -> Seq<
    Seq<char>,
> {
    lists::selected(
        writes,
        |w: FileWriteModel|
            if outdates(w, run_seq, claim_seq) {
                Some(shortened(w.path))
            } else {
                None
            },
    )
}

/// What a failing run counted.
pub open spec fn failure_detail(run: CheckRunModel) -> Seq<char> {
    match (run.failed, run.passed) {
        (Some(f), Some(p)) if f > 0 => text::decimal_of(f as nat) + " failed, "@ + text::decimal_of(
            p as nat,
        ) + " passed"@,
        (Some(f), None) if f > 0 => text::decimal_of(f as nat) + " failed"@,
        _ => "the run reported failures"@,
    }
}

/// The caveats of a run in words.
pub open spec fn caveats_in_words(caveats: Seq<CaveatModel>) -> Seq<char> {
    text::joined(caveats.map_values(|c: CaveatModel| runners::described(c)), "; "@)
}

/// The files in words: at most three, and how many more there are.
pub open spec fn files_in_words(files: Seq<Seq<char>>) -> Seq<char> {
    let shown = text::joined(
        files.take(
            if files.len() < 3 {
                files.len() as int
            } else {
                3
            },
        ),
        ", "@,
    );
    if files.len() > 3 {
        shown + ", +"@ + text::decimal_of((files.len() - 3) as nat) + " more"@
    } else {
        shown
    }
}

/// The reason for a pass that later edits outdate.
pub open spec fn outdated_reason(runner: Seq<char>, files: Seq<Seq<char>>) -> Seq<char> {
    "`"@ + runner + "` passed, but "@ + text::decimal_of(files.len()) + " file"@ + text::plural(
        files.len(),
    ) + " changed afterwards and were never re-tested ("@ + files_in_words(files) + ")"@
}

/// The verdict that a run gives on a claim, `files` being what was edited after it, each once and
/// in order.
pub open spec fn run_verdict(run: CheckRunModel, files: Seq<Seq<char>>) -> (Verdict, Seq<char>) {
    match run.outcome {
        Outcome::Failed => (
            Verdict::Contradicted,
            "the last `"@ + run.runner + "` run "@ + failure_detail(run),
        ),
        Outcome::DidNotComplete => (
            Verdict::Unsupported,
            "the last `"@ + run.runner + "` run never completed (interrupted or blocked)"@,
        ),
        Outcome::Unknown => (
            Verdict::Inconclusive,
            "`"@ + run.runner
                + "` ran, but its output does not state an outcome backcheck can read"@,
        ),
        Outcome::Passed => if run.caveats.len() > 0 {
            (
                Verdict::Qualified,
                "`"@ + run.runner + "` passed, but "@ + caveats_in_words(run.caveats),
            )
        } else if files.len() > 0 {
            (Verdict::Qualified, outdated_reason(run.runner, files))
        } else {
            (
                Verdict::Supported,
                "`"@ + run.runner + "` ran and passed with no edits after it"@,
            )
        },
    }
}

/// What a run makes of a claim.
pub open spec fn judged_by_run(claim: ClaimModel, run: CheckRunModel, writes: Seq<FileWriteModel>) -> CheckedModel {
    let (verdict, reason) = run_verdict(
        run,
        text::set_of(outdated_paths(writes, run.seq, claim.seq)),
    );
    CheckedModel { claim, verdict, reason, evidence: run.evidence_line }
}

/// A claim that the checks of a kind pass, held against the runs before it.
pub open spec fn checked_run(claim: ClaimModel, ledger: LedgerModel, kind: CheckKind) -> CheckedModel {
    match last_run_before(ledger.checks, kind, claim.seq) {
        Some(run) => judged_by_run(claim, run, ledger.writes),
        None => CheckedModel {
            claim,
            verdict: Verdict::Unsupported,
            reason: "no "@ + runners::kind_label(kind)
                + " run appears anywhere in this session before the claim was made"@,
            evidence: None,
        },
    }
}

/// The last two components of a path.
pub fn short_path(p: &str) -> (r: String)
    ensures
        r@ == shortened(p@),
{
    let t = text::trim_end_of(p, "/");
    let parts = text::split(t.as_str(), '/');
    let n = parts.len();
    if n <= 2 {
        return p.to_owned();
    }
    let mut tail: Vec<String> = Vec::new();
    tail.push(parts[n - 2].clone());
    tail.push(parts[n - 1].clone());
    assert(tail.deep_view() =~= parts.deep_view().skip(n - 2));
    text::join(&tail, "/")
}

fn words_for_caveats(run: &CheckRun) -> (r: String)
    ensures
        r@ == caveats_in_words(run.caveats.deep_view()),
{
    let mut parts: Vec<String> = Vec::new();
    for i in 0..run.caveats.len()
        invariant
            parts@.len() == i,
            forall|k: int|
                0 <= k < i ==> (#[trigger] parts@[k])@ == runners::described(
                    run.caveats@[k].deep_view(),
                ),
    {
        parts.push(run.caveats[i].describe());
    }
    assert(parts.deep_view() =~= run.caveats.deep_view().map_values(
        |c: CaveatModel| runners::described(c),
    ));
    text::join(&parts, "; ")
}

fn words_for_failure(run: &CheckRun) -> (r: String)
    ensures
        r@ == failure_detail(run.deep_view()),
{
    match (run.failed, run.passed) {
        (Some(f), Some(p)) if f > 0 => {
            let mut s = text::decimal(f as u64);
            s.append(" failed, ");
            s.append(text::decimal(p as u64).as_str());
            s.append(" passed");
            s
        },
        (Some(f), None) if f > 0 => {
            let mut s = text::decimal(f as u64);
            s.append(" failed");
            s
        },
        _ => "the run reported failures".to_owned(),
    }
}

fn words_for_files(files: &Vec<String>) -> (r: String)
    ensures
        r@ == files_in_words(files.deep_view()),
{
    let mut shown: Vec<String> = Vec::new();
    let n: usize = if files.len() < 3 {
        files.len()
    } else {
        3
    };
    for i in 0..n
        invariant
            n <= files@.len(),
            shown@.len() == i,
            forall|k: int| 0 <= k < i ==> (#[trigger] shown@[k])@ == files@[k]@,
    {
        shown.push(files[i].clone());
    }
    assert(shown.deep_view() =~= files.deep_view().take(n as int));
    let mut s = text::join(&shown, ", ");
    if files.len() > 3 {
        s.append(", +");
        s.append(text::decimal_usize(files.len() - 3).as_str());
        s.append(" more");
    }
    s
}

fn words_for_outdated(runner: &str, files: &Vec<String>) -> (r: String)
    ensures
        r@ == outdated_reason(runner@, files.deep_view()),
{
    let mut s = "`".to_owned();
    s.append(runner);
    s.append("` passed, but ");
    s.append(text::decimal_usize(files.len()).as_str());
    s.append(" file");
    s.append(text::plural_of(files.len()));
    s.append(" changed afterwards and were never re-tested (");
    s.append(words_for_files(files).as_str());
    s.append(")");
    s
}

/// The short paths of what was edited between a run and a claim, each once and in order.
///
/// A pass that predates the newest source edit says nothing about the current code. Edits to tests
/// and to documentation do not count.
fn edited_between(ledger: &Ledger, run_seq: usize, claim_seq: usize) -> (r: Vec<String>)
    ensures
        r.deep_view() == text::set_of(
            outdated_paths(ledger.deep_view().writes, run_seq, claim_seq),
        ),
{
    let ghost all = ledger.deep_view().writes;
    let ghost f = |w: FileWriteModel|
        if outdates(w, run_seq, claim_seq) {
            Some(shortened(w.path))
        } else {
            None
        };
    let mut out: Vec<String> = Vec::new();
    assert(out.deep_view() =~= Seq::empty());
    for i in 0..ledger.writes.len()
        invariant
            all == ledger.writes.deep_view(),
            f == (|w: FileWriteModel|
                if outdates(w, run_seq, claim_seq) {
                    Some(shortened(w.path))
                } else {
                    None
                }),
            out.deep_view() == lists::selected(all.take(i as int), f),
    {
        let ghost before = out.deep_view();
        let w = &ledger.writes[i];
        proof {
            lists::lemma_selected_step(all, f, i as int);
            assert(all[i as int] == w.deep_view());
        }
        if w.succeeded && w.seq > run_seq && w.seq < claim_seq && !w.is_test_file()
            && !evidence::is_documentation(w.path.as_str()) {
            let short = short_path(w.path.as_str());
            out.push(short);
            assert(out.deep_view() =~= before.push(short@));
        }
    }
    assert(all.take(all.len() as int) =~= all);
    text::sorted_set(&out)
}

/// What a run makes of a claim.
pub fn judge_by_run(claim: &Claim, run: &CheckRun, ledger: &Ledger) -> (r: Checked)
    ensures
        r.deep_view() == judged_by_run(
            claim.deep_view(),
            run.deep_view(),
            ledger.deep_view().writes,
        ),
{
    let evidence = text::copied(&run.evidence_line);
    match run.outcome {
        Outcome::Failed => {
            let mut s = text::concat3("the last `", run.runner.as_str(), "` run ");
            s.append(words_for_failure(run).as_str());
            judged(claim, Verdict::Contradicted, s, evidence)
        },
        Outcome::DidNotComplete => judged(
            claim,
            Verdict::Unsupported,
            text::concat3(
                "the last `",
                run.runner.as_str(),
                "` run never completed (interrupted or blocked)",
            ),
            evidence,
        ),
        Outcome::Unknown => judged(
            claim,
            Verdict::Inconclusive,
            text::concat3(
                "`",
                run.runner.as_str(),
                "` ran, but its output does not state an outcome backcheck can read",
            ),
            evidence,
        ),
        Outcome::Passed => {
            if run.caveats.len() > 0 {
                let mut s = text::concat3("`", run.runner.as_str(), "` passed, but ");
                s.append(words_for_caveats(run).as_str());
                return judged(claim, Verdict::Qualified, s, evidence);
            }
            let files = edited_between(ledger, run.seq, claim.seq);
            if files.len() > 0 {
                let s = words_for_outdated(run.runner.as_str(), &files);
                return judged(claim, Verdict::Qualified, s, evidence);
            }
            judged(
                claim,
                Verdict::Supported,
                text::concat3(
                    "`",
                    run.runner.as_str(),
                    "` ran and passed with no edits after it",
                ),
                evidence,
            )
        },
    }
}

/// The last run of a kind before a claim.
fn run_before<'a>(ledger: &'a Ledger, kind: CheckKind, seq: usize) -> (r: Option<&'a CheckRun>)
    ensures
        r.deep_view() == last_run_before(ledger.deep_view().checks, kind, seq),
{
    let ghost all = ledger.deep_view().checks;
    let ghost p = |c: CheckRunModel| c.kind == kind && c.seq < seq;
    let mut i: usize = ledger.checks.len();
    assert(all.take(all.len() as int) =~= all);
    while i > 0
        invariant
            i <= ledger.checks.len(),
            all == ledger.checks.deep_view(),
            p == (|c: CheckRunModel| c.kind == kind && c.seq < seq),
            lists::last_such(all, p) == lists::last_such(all.take(i as int), p),
        decreases i,
    {
        assert(all.take(i as int).last() == ledger.checks@[i - 1].deep_view());
        assert(all.take(i as int).drop_last() =~= all.take(i - 1));
        if ledger.checks[i - 1].kind == kind && ledger.checks[i - 1].seq < seq {
            return Some(&ledger.checks[i - 1]);
        }
        i = i - 1;
    }
    None
}

/// Verify a "the checks pass" claim against the runs recorded before it was made.
pub fn check_run_claim(claim: &Claim, ledger: &Ledger, kind: CheckKind) -> (r: Checked)
    ensures
        r.deep_view() == checked_run(claim.deep_view(), ledger.deep_view(), kind),
{
    match run_before(ledger, kind, claim.seq) {
        Some(run) => judge_by_run(claim, run, ledger),
        None => judged(
            claim,
            Verdict::Unsupported,
            text::concat3(
                "no ",
                kind.label(),
                " run appears anywhere in this session before the claim was made",
            ),
            None,
        ),
    }
}

// ---------------------------------------------------------------- blanket claims

/// The kinds of checks that a blanket claim covers, in the order in which they are held against
/// it.
pub open spec fn blanket_kinds() -> Seq<CheckKind> {
    seq![CheckKind::Test, CheckKind::TypeCheck, CheckKind::Lint, CheckKind::Build]
}

/// The worst that the first `n` kinds of checks make of a blanket claim, of those that ran before
/// it; the first of two that are equally bad.
pub open spec fn worst_upto(claim: ClaimModel, ledger: LedgerModel, n: int) -> Option<CheckedModel>
    decreases n,
{
    if n <= 0 {
        None
    } else {
        let before = worst_upto(claim, ledger, n - 1);
        let kind = blanket_kinds()[n - 1];
        if last_run_before(ledger.checks, kind, claim.seq) is None {
            before
        } else {
            let this = checked_run(claim, ledger, kind);
            match before {
                Some(b) if badness(b.verdict) >= badness(this.verdict) => Some(b),
                _ => Some(this),
            }
        }
    }
}

/// A claim that all checks pass, held against whatever ran before it.
pub open spec fn checked_blanket(claim: ClaimModel, ledger: LedgerModel) -> CheckedModel {
    match worst_upto(claim, ledger, blanket_kinds().len() as int) {
        Some(c) => c,
        None => CheckedModel {
            claim,
            verdict: Verdict::Unsupported,
            reason: "no check run appears anywhere in this session before the claim was made"@,
            evidence: None,
        },
    }
}

/// Verify a claim that names no particular tool.
///
/// "All checks pass" may mean tests, lint, types or builds, so it is held against whatever ran:
/// it is as good as the worst of the last runs.
pub fn check_blanket_claim(claim: &Claim, ledger: &Ledger) -> (r: Checked)
    ensures
        r.deep_view() == checked_blanket(claim.deep_view(), ledger.deep_view()),
{
    let kinds: [CheckKind; 4] = [
        CheckKind::Test,
        CheckKind::TypeCheck,
        CheckKind::Lint,
        CheckKind::Build,
    ];
    assert(kinds@ =~= blanket_kinds());
    let mut worst: Option<Checked> = None;
    for i in 0..4usize
        invariant
            kinds@ == blanket_kinds(),
            worst.deep_view() == worst_upto(claim.deep_view(), ledger.deep_view(), i as int),
    {
        if run_before(ledger, kinds[i], claim.seq).is_some() {
            let this = check_run_claim(claim, ledger, kinds[i]);
            worst = match worst {
                Some(b) => {
                    if b.verdict.severity() >= this.verdict.severity() {
                        Some(b)
                    } else {
                        Some(this)
                    }
                },
                None => Some(this),
            };
        }
    }
    match worst {
        Some(c) => c,
        None => judged(
            claim,
            Verdict::Unsupported,
            "no check run appears anywhere in this session before the claim was made".to_owned(),
            None,
        ),
    }
}

// ---------------------------------------------------------------- git

/// The word for a git operation.
pub open spec fn git_noun(kind: GitOpKind) -> Seq<char> {
    match kind {
        GitOpKind::Commit => "commit"@,
        GitOpKind::Push => "push"@,
    }
}

/// The last git operation of a kind before a point in the transcript.
pub open spec fn last_op_before(ops: Seq<GitOpModel>, kind: GitOpKind, seq: usize) -> Option<
    GitOpModel,
> {
    lists::last_such(ops, |g: GitOpModel| g.kind == kind && g.seq < seq)
}

/// A commit or push claim, held against the operations before it.
pub open spec fn checked_git(
    claim: ClaimModel,
    ledger: LedgerModel,
    kind: GitOpKind,
    opts: OptionsModel,
) -> CheckedModel {
    let noun = git_noun(kind);
    match last_op_before(ledger.git_ops, kind, claim.seq) {
        Some(op) => if op.succeeded {
            CheckedModel {
                claim,
                verdict: Verdict::Supported,
                reason: "a `git "@ + noun + "` ran and reported success"@,
                evidence: op.output_line,
            }
        } else {
            CheckedModel {
                claim,
                verdict: Verdict::Contradicted,
                reason: "`git "@ + noun + "` ran but did not succeed"@,
                evidence: op.output_line,
            }
        },
        None => if opts.live && kind == GitOpKind::Commit && opts.cwd is Some && opts.tree_dirty
            == Some(true) {
            CheckedModel {
                claim,
                verdict: Verdict::Unsupported,
                reason: "no `git "@ + noun
                    + "` in this session, and the working tree still has uncommitted changes"@,
                evidence: Some("git status --porcelain reports modified files"@),
            }
        } else {
            CheckedModel {
                claim,
                verdict: Verdict::Unsupported,
                reason: "no `git "@ + noun + "` appears in this session"@,
                evidence: None,
            }
        },
    }
}

fn op_before<'a>(ledger: &'a Ledger, kind: GitOpKind, seq: usize) -> (r: Option<&'a GitOp>)
    ensures
        r.deep_view() == last_op_before(ledger.deep_view().git_ops, kind, seq),
{
    let ghost all = ledger.deep_view().git_ops;
    let ghost p = |g: GitOpModel| g.kind == kind && g.seq < seq;
    let mut i: usize = ledger.git_ops.len();
    assert(all.take(all.len() as int) =~= all);
    while i > 0
        invariant
            i <= ledger.git_ops.len(),
            all == ledger.git_ops.deep_view(),
            p == (|g: GitOpModel| g.kind == kind && g.seq < seq),
            lists::last_such(all, p) == lists::last_such(all.take(i as int), p),
        decreases i,
    {
        assert(all.take(i as int).last() == ledger.git_ops@[i - 1].deep_view());
        assert(all.take(i as int).drop_last() =~= all.take(i - 1));
        if ledger.git_ops[i - 1].kind == kind && ledger.git_ops[i - 1].seq < seq {
            return Some(&ledger.git_ops[i - 1]);
        }
        i = i - 1;
    }
    None
}

/// Verify a commit or push claim, optionally consulting the repository itself.
pub fn check_git_claim(claim: &Claim, ledger: &Ledger, kind: GitOpKind, opts: &Options) -> (r:
    Checked)
    ensures
        r.deep_view() == checked_git(
            claim.deep_view(),
            ledger.deep_view(),
            kind,
            opts.deep_view(),
        ),
{
    let noun = match kind {
        GitOpKind::Commit => "commit",
        GitOpKind::Push => "push",
    };
    match op_before(ledger, kind, claim.seq) {
        Some(op) => {
            let line = text::copied(&op.output_line);
            if op.succeeded {
                judged(
                    claim,
                    Verdict::Supported,
                    text::concat3("a `git ", noun, "` ran and reported success"),
                    line,
                )
            } else {
                judged(
                    claim,
                    Verdict::Contradicted,
                    text::concat3("`git ", noun, "` ran but did not succeed"),
                    line,
                )
            }
        },
        None => {
            // Nothing in the transcript. The repository may still show it, if the agent used a
            // tool that leaves no trace there.
            let dirty = match opts.tree_dirty {
                Some(d) => d,
                None => false,
            };
            if opts.live && kind == GitOpKind::Commit && opts.cwd.is_some() && dirty {
                return judged(
                    claim,
                    Verdict::Unsupported,
                    text::concat3(
                        "no `git ",
                        noun,
                        "` in this session, and the working tree still has uncommitted changes",
                    ),
                    Some("git status --porcelain reports modified files".to_owned()),
                );
            }
            judged(
                claim,
                Verdict::Unsupported,
                text::concat3("no `git ", noun, "` appears in this session"),
                None,
            )
        },
    }
}

// ---------------------------------------------------------------- files

/// A recorded path is the one that a claim names. Claims name files loosely ("parser.rs"), while
/// the ledger holds absolute paths; the file name alone is enough only when the claim gave no
/// directory at all.
pub open spec fn same_path(recorded: Seq<char>, claimed: Seq<char>) -> bool {
    let r = text::with_char(recorded, '\\', '/');
    let c = text::with_char(claimed, '\\', '/');
    ||| r == c
    ||| text::ends(r, "/"@ + c)
    ||| text::ends(c, r)
    ||| !c.contains('/') && text::after_last(r, text::among("/"@)) == text::after_last(
        c,
        text::among("/"@),
    )
}

/// Claims name files loosely ("parser.rs"), while the ledger holds absolute paths.
pub fn paths_match(recorded: &str, claimed: &str) -> (r: bool)
    ensures
        r == same_path(recorded@, claimed@),
{
    let rec = text::replace_char(recorded, '\\', '/');
    let cla = text::replace_char(claimed, '\\', '/');
    let mut slashed = "/".to_owned();
    slashed.append(cla.as_str());
    if text::same(rec.as_str(), cla.as_str()) || text::ends_with(rec.as_str(), slashed.as_str())
        || text::ends_with(cla.as_str(), rec.as_str()) {
        return true;
    }
    let rf = text::after_last_of(rec.as_str(), "/");
    let cf = text::after_last_of(cla.as_str(), "/");
    // Match on filename only when the claim gave no directory at all.
    !text::contains_char(cla.as_str(), '/') && text::same(rf.as_str(), cf.as_str())
}

/// A write before the claim went to the file that it names.
pub open spec fn was_written(writes: Seq<FileWriteModel>, subject: Seq<char>, seq: usize) -> bool {
    lists::any_such(
        writes,
        |w: FileWriteModel| w.succeeded && w.seq < seq && same_path(w.path, subject),
    )
}

/// A claim to have written a file, held against the writes before it.
pub open spec fn checked_file(claim: ClaimModel, ledger: LedgerModel, opts: OptionsModel) -> CheckedModel {
    match claim.subject {
        None => CheckedModel {
            claim,
            verdict: Verdict::Inconclusive,
            reason: "no file path could be read from the claim"@,
            evidence: None,
        },
        Some(subject) => {
            let (verdict, reason) = if was_written(ledger.writes, subject, claim.seq) {
                (
                    Verdict::Supported,
                    "`"@ + subject + "` was written by a tool call in this session"@,
                )
            } else if opts.live && opts.cwd is Some {
                if opts.existing.contains(subject) {
                    (Verdict::Supported, "`"@ + subject + "` exists on disk"@)
                } else {
                    (
                        Verdict::Unsupported,
                        "`"@ + subject
                            + "` was never written in this session and does not exist on disk"@,
                    )
                }
            } else {
                (
                    Verdict::Inconclusive,
                    "no write to `"@ + subject
                        + "` recorded; run with --live to check the filesystem"@,
                )
            };
            CheckedModel { claim, verdict, reason, evidence: None }
        },
    }
}

fn file_was_written(ledger: &Ledger, subject: &str, seq: usize) -> (r: bool)
    ensures
        r == was_written(ledger.deep_view().writes, subject@, seq),
{
    let ghost all = ledger.deep_view().writes;
    let ghost p = |w: FileWriteModel| w.succeeded && w.seq < seq && same_path(w.path, subject@);
    for i in 0..ledger.writes.len()
        invariant
            all == ledger.writes.deep_view(),
            p == (|w: FileWriteModel| w.succeeded && w.seq < seq && same_path(w.path, subject@)),
            forall|k: int| 0 <= k < i ==> !p(#[trigger] all[k]),
    {
        let w = &ledger.writes[i];
        assert(all[i as int] == w.deep_view());
        if w.succeeded && w.seq < seq && paths_match(w.path.as_str(), subject) {
            assert(p(all[i as int]));
            return true;
        }
    }
    false
}

/// Verify that a file the agent said it wrote exists and was actually written.
pub fn check_file_claim(claim: &Claim, ledger: &Ledger, opts: &Options) -> (r: Checked)
    ensures
        r.deep_view() == checked_file(claim.deep_view(), ledger.deep_view(), opts.deep_view()),
{
    let subject = match &claim.subject {
        Some(s) => s.as_str(),
        None => {
            return judged(
                claim,
                Verdict::Inconclusive,
                "no file path could be read from the claim".to_owned(),
                None,
            );
        },
    };
    if file_was_written(ledger, subject, claim.seq) {
        return judged(
            claim,
            Verdict::Supported,
            text::concat3("`", subject, "` was written by a tool call in this session"),
            None,
        );
    }
    // The agent may have created it via a shell heredoc, which is legitimate but invisible to the
    // write ledger; fall back to the filesystem before calling the claim unsupported.
    if opts.live && opts.cwd.is_some() {
        if text::is_among(&opts.existing, subject) {
            return judged(
                claim,
                Verdict::Supported,
                text::concat3("`", subject, "` exists on disk"),
                None,
            );
        }
        return judged(
            claim,
            Verdict::Unsupported,
            text::concat3(
                "`",
                subject,
                "` was never written in this session and does not exist on disk",
            ),
            None,
        );
    }
    judged(
        claim,
        Verdict::Inconclusive,
        text::concat3(
            "no write to `",
            subject,
            "` recorded; run with --live to check the filesystem",
        ),
        None,
    )
}

// ---------------------------------------------------------------- every claim

/// One claim, held against the evidence.
pub open spec fn checked(claim: ClaimModel, ledger: LedgerModel, opts: OptionsModel) -> CheckedModel {
    match claim.kind {
        ClaimKind::TestsPass => checked_run(claim, ledger, CheckKind::Test),
        ClaimKind::ChecksPass => checked_blanket(claim, ledger),
        ClaimKind::TypeCheckPasses => checked_run(claim, ledger, CheckKind::TypeCheck),
        ClaimKind::LintPasses => checked_run(claim, ledger, CheckKind::Lint),
        ClaimKind::BuildPasses => checked_run(claim, ledger, CheckKind::Build),
        ClaimKind::Committed => checked_git(claim, ledger, GitOpKind::Commit, opts),
        ClaimKind::Pushed => checked_git(claim, ledger, GitOpKind::Push, opts),
        ClaimKind::FileWritten => checked_file(claim, ledger, opts),
    }
}

/// Every claim, held against the evidence.
pub open spec fn verified(claims: Seq<ClaimModel>, ledger: LedgerModel, opts: OptionsModel) -> Seq<
    CheckedModel,
> {
    claims.map_values(|c: ClaimModel| checked(c, ledger, opts))
}

/// Hold one claim against the evidence.
pub fn check_claim(claim: &Claim, ledger: &Ledger, opts: &Options) -> (r: Checked)
    ensures
        r.deep_view() == checked(claim.deep_view(), ledger.deep_view(), opts.deep_view()),
{
    match claim.kind {
        ClaimKind::TestsPass => check_run_claim(claim, ledger, CheckKind::Test),
        ClaimKind::ChecksPass => check_blanket_claim(claim, ledger),
        ClaimKind::TypeCheckPasses => check_run_claim(claim, ledger, CheckKind::TypeCheck),
        ClaimKind::LintPasses => check_run_claim(claim, ledger, CheckKind::Lint),
        ClaimKind::BuildPasses => check_run_claim(claim, ledger, CheckKind::Build),
        ClaimKind::Committed => check_git_claim(claim, ledger, GitOpKind::Commit, opts),
        ClaimKind::Pushed => check_git_claim(claim, ledger, GitOpKind::Push, opts),
        ClaimKind::FileWritten => check_file_claim(claim, ledger, opts),
    }
}

/// Hold every claim against the evidence.
pub fn verify(claims: &Vec<Claim>, ledger: &Ledger, opts: &Options) -> (r: Vec<Checked>)
    ensures
        r.deep_view() == verified(claims.deep_view(), ledger.deep_view(), opts.deep_view()),
{
    let mut out: Vec<Checked> = Vec::new();
    for i in 0..claims.len()
        invariant
            out@.len() == i,
            forall|k: int|
                0 <= k < i ==> (#[trigger] out@[k]).deep_view() == checked(
                    claims@[k].deep_view(),
                    ledger.deep_view(),
                    opts.deep_view(),
                ),
    {
        out.push(check_claim(&claims[i], ledger, opts));
    }
    assert(out.deep_view() =~= verified(
        claims.deep_view(),
        ledger.deep_view(),
        opts.deep_view(),
    ));
    out
}

// ---------------------------------------------------------------- what to look for

/// What verification would look for in the working tree.
#[derive(Debug)]
pub struct Lookups {
    /// Whether git reports uncommitted changes.
    pub tree: bool,
    /// Which of these files exist, as the claims name them.
    pub files: Vec<String>,
}

/// A claim whose verdict depends on whether the working tree has uncommitted changes.
pub open spec fn asks_tree(claim: ClaimModel, ledger: LedgerModel) -> bool {
    claim.kind == ClaimKind::Committed && last_op_before(
        ledger.git_ops,
        GitOpKind::Commit,
        claim.seq,
    ) is None
}

/// The file on whose existence the verdict on a claim depends.
pub open spec fn asks_file(claim: ClaimModel, ledger: LedgerModel) -> Option<Seq<char>> {
    match claim.subject {
        Some(s) if claim.kind == ClaimKind::FileWritten && !was_written(
            ledger.writes,
            s,
            claim.seq,
        ) => Some(s),
        _ => None,
    }
}

/// The working tree is consulted at all.
pub open spec fn looks_live(opts: OptionsModel) -> bool {
    opts.live && opts.cwd is Some
}

/// The verdict on some claim depends on whether the working tree has uncommitted changes.
pub open spec fn tree_asked(claims: Seq<ClaimModel>, ledger: LedgerModel, opts: OptionsModel) -> bool {
    looks_live(opts) && lists::any_such(claims, |c: ClaimModel| asks_tree(c, ledger))
}

/// The files on whose existence the verdicts depend.
pub open spec fn files_asked(claims: Seq<ClaimModel>, ledger: LedgerModel, opts: OptionsModel) -> Seq<
    Seq<char>,
> {
    if looks_live(opts) {
        lists::selected(claims, |c: ClaimModel| asks_file(c, ledger))
    } else {
        Seq::empty()
    }
}

/// Say what to look for in the working tree before [`verify`] is called.
pub fn live_lookups(claims: &Vec<Claim>, ledger: &Ledger, opts: &Options) -> (r: Lookups)
    ensures
        r.tree == tree_asked(claims.deep_view(), ledger.deep_view(), opts.deep_view()),
        r.files.deep_view() == files_asked(
            claims.deep_view(),
            ledger.deep_view(),
            opts.deep_view(),
        ),
{
    let mut files: Vec<String> = Vec::new();
    let mut tree = false;
    assert(files.deep_view() =~= Seq::empty());
    if !opts.live || opts.cwd.is_none() {
        return Lookups { tree, files };
    }
    let ghost all = claims.deep_view();
    let ghost l = ledger.deep_view();
    let ghost p = |c: ClaimModel| asks_tree(c, l);
    let ghost f = |c: ClaimModel| asks_file(c, l);
    for i in 0..claims.len()
        invariant
            all == claims.deep_view(),
            l == ledger.deep_view(),
            p == (|c: ClaimModel| asks_tree(c, l)),
            f == (|c: ClaimModel| asks_file(c, l)),
            tree == exists|k: int| 0 <= k < i && p(#[trigger] all[k]),
            files.deep_view() == lists::selected(all.take(i as int), f),
    {
        let ghost before = files.deep_view();
        let claim = &claims[i];
        proof {
            lists::lemma_selected_step(all, f, i as int);
            assert(all[i as int] == claim.deep_view());
        }
        if claim.kind == ClaimKind::Committed && op_before(
            ledger,
            GitOpKind::Commit,
            claim.seq,
        ).is_none() {
            assert(p(all[i as int]));
            tree = true;
        } else {
            assert(!p(all[i as int]));
        }
        if claim.kind == ClaimKind::FileWritten {
            if let Some(s) = &claim.subject {
                if !file_was_written(ledger, s.as_str(), claim.seq) {
                    files.push(s.clone());
                    assert(files.deep_view() =~= before.push(s@));
                }
            }
        }
    }
    assert(all.take(all.len() as int) =~= all);
    proof {
        if tree {
            let k = choose|k: int| 0 <= k < all.len() && p(#[trigger] all[k]);
            assert(lists::any_such(all, p));
        }
    }
    Lookups { tree, files }
}

// ---------------------------------------------------------------- laws

/// The run at position `i` of the ledger is the last of its kind before the claim.
pub open spec fn is_last_before(
    checks: Seq<CheckRunModel>,
    i: int,
    kind: CheckKind,
    seq: usize,
) -> bool {
    &&& 0 <= i < checks.len()
    &&& checks[i].kind == kind && checks[i].seq < seq
    &&& forall|j: int|
        i < j < checks.len() ==> !((#[trigger] checks[j]).kind == kind && checks[j].seq < seq)
}

proof fn lemma_last_run(checks: Seq<CheckRunModel>, kind: CheckKind, seq: usize)
    ensures
        match last_run_before(checks, kind, seq) {
            Some(run) => exists|i: int|
                #[trigger] is_last_before(checks, i, kind, seq) && checks[i] == run,
            None => forall|i: int|
                0 <= i < checks.len() ==> !((#[trigger] checks[i]).kind == kind && checks[i].seq
                    < seq),
        },
        forall|i: int| #[trigger]
            is_last_before(checks, i, kind, seq) ==> last_run_before(checks, kind, seq) == Some(
                checks[i],
            ),
{
    let p = |c: CheckRunModel| c.kind == kind && c.seq < seq;
    lists::lemma_last_such(checks, p);
    match last_run_before(checks, kind, seq) {
        Some(run) => {
            let i = choose|i: int|
                0 <= i < checks.len() && #[trigger] checks[i] == run && p(run) && (forall|j: int|
                    i < j < checks.len() ==> !p(#[trigger] checks[j]));
            assert forall|j: int| i < j < checks.len() implies !((#[trigger] checks[j]).kind == kind
                && checks[j].seq < seq) by {
                assert(!p(checks[j]));
            }
            assert(is_last_before(checks, i, kind, seq));
            assert forall|k: int| #[trigger] is_last_before(checks, k, kind, seq) implies Some(
                checks[k],
            ) == Some(run) by {
                if k < i {
                    assert(checks[i].kind == kind);
                } else if i < k {
                    assert(!p(checks[k]));
                }
            }
        },
        None => {
            assert forall|i: int| 0 <= i < checks.len() implies !((#[trigger] checks[i]).kind
                == kind && checks[i].seq < seq) by {
                assert(!p(checks[i]));
            }
        },
    }
}

proof fn lemma_nothing_outdated(writes: Seq<FileWriteModel>, run_seq: usize, claim_seq: usize)
    ensures
        text::set_of(outdated_paths(writes, run_seq, claim_seq)).len() == 0 <==> forall|i: int|
            0 <= i < writes.len() ==> !outdates(#[trigger] writes[i], run_seq, claim_seq),
{
    let f = |w: FileWriteModel|
        if outdates(w, run_seq, claim_seq) {
            Some(shortened(w.path))
        } else {
            None
        };
    lists::lemma_selected_empty(writes, f);
    let paths = outdated_paths(writes, run_seq, claim_seq);
    text::lemma_set_of(paths);
    if paths.len() > 0 {
        assert(paths.contains(paths[0]));
        assert(text::set_of(paths).contains(paths[0]));
    } else {
        if text::set_of(paths).len() > 0 {
            assert(text::set_of(paths).contains(text::set_of(paths)[0]));
        }
    }
    if paths.len() == 0 {
        assert forall|i: int| 0 <= i < writes.len() implies !outdates(
            #[trigger] writes[i],
            run_seq,
            claim_seq,
        ) by {
            assert(f(writes[i]) is None);
        }
    } else {
        let i = choose|i: int| 0 <= i < writes.len() && !(f(#[trigger] writes[i]) is None);
        assert(outdates(writes[i], run_seq, claim_seq));
    }
}

/// A claim that checks pass is supported exactly when the last run of that kind before it passed
/// with nothing qualifying it, and no source file was edited between that run and the claim.
pub proof fn law_supported_means_a_clean_and_current_run(
    claim: ClaimModel,
    ledger: LedgerModel,
    kind: CheckKind,
)
    ensures
        checked_run(claim, ledger, kind).verdict == Verdict::Supported <==> exists|i: int| #[trigger]
            is_last_before(ledger.checks, i, kind, claim.seq) && runners::clean_pass(
                ledger.checks[i],
            ) && forall|j: int|
                0 <= j < ledger.writes.len() ==> !outdates(
                    #[trigger] ledger.writes[j],
                    ledger.checks[i].seq,
                    claim.seq,
                ),
{
    lemma_last_run(ledger.checks, kind, claim.seq);
    match last_run_before(ledger.checks, kind, claim.seq) {
        Some(run) => {
            lemma_nothing_outdated(ledger.writes, run.seq, claim.seq);
            let i = choose|i: int| #[trigger]
                is_last_before(ledger.checks, i, kind, claim.seq) && ledger.checks[i] == run;
            if checked_run(claim, ledger, kind).verdict == Verdict::Supported {
                assert(is_last_before(ledger.checks, i, kind, claim.seq) && runners::clean_pass(
                    ledger.checks[i],
                ));
            }
        },
        None => {},
    }
}

/// A claim that checks pass is contradicted exactly when the last run of that kind before it
/// failed.
pub proof fn law_contradicted_means_a_failed_run(
    claim: ClaimModel,
    ledger: LedgerModel,
    kind: CheckKind,
)
    ensures
        checked_run(claim, ledger, kind).verdict == Verdict::Contradicted <==> exists|i: int|
            #[trigger]
            is_last_before(ledger.checks, i, kind, claim.seq) && ledger.checks[i].outcome
                == Outcome::Failed,
{
    lemma_last_run(ledger.checks, kind, claim.seq);
}

/// A claim that checks pass is unsupported exactly when no run of that kind comes before it, or
/// the last one did not complete.
pub proof fn law_unsupported_means_no_finished_run(
    claim: ClaimModel,
    ledger: LedgerModel,
    kind: CheckKind,
)
    ensures
        checked_run(claim, ledger, kind).verdict == Verdict::Unsupported <==> (forall|i: int|
            0 <= i < ledger.checks.len() ==> !((#[trigger] ledger.checks[i]).kind == kind
                && ledger.checks[i].seq < claim.seq)) || (exists|i: int| #[trigger]
            is_last_before(ledger.checks, i, kind, claim.seq) && ledger.checks[i].outcome
                == Outcome::DidNotComplete),
{
    lemma_last_run(ledger.checks, kind, claim.seq);
}

/// A claim that checks pass is inconclusive exactly when the outcome of the last run of that kind
/// before it could not be read.
pub proof fn law_inconclusive_means_an_unread_run(
    claim: ClaimModel,
    ledger: LedgerModel,
    kind: CheckKind,
)
    ensures
        checked_run(claim, ledger, kind).verdict == Verdict::Inconclusive <==> exists|i: int|
            #[trigger]
            is_last_before(ledger.checks, i, kind, claim.seq) && ledger.checks[i].outcome
                == Outcome::Unknown,
{
    lemma_last_run(ledger.checks, kind, claim.seq);
}

/// A subset run, or any other pass with a caveat, never supports a claim that checks pass: it
/// qualifies it.
pub proof fn law_a_qualified_pass_qualifies_the_claim(
    claim: ClaimModel,
    ledger: LedgerModel,
    kind: CheckKind,
    i: int,
)
    requires
        is_last_before(ledger.checks, i, kind, claim.seq),
        ledger.checks[i].outcome == Outcome::Passed,
        ledger.checks[i].caveats.len() > 0,
    ensures
        checked_run(claim, ledger, kind).verdict == Verdict::Qualified,
{
    lemma_last_run(ledger.checks, kind, claim.seq);
}

/// The part of the ledger that comes before a point in the transcript.
pub open spec fn before(ledger: LedgerModel, seq: usize) -> LedgerModel {
    LedgerModel {
        checks: lists::kept(ledger.checks, |c: CheckRunModel| c.seq < seq),
        writes: lists::kept(ledger.writes, |w: FileWriteModel| w.seq < seq),
        git_ops: lists::kept(ledger.git_ops, |g: GitOpModel| g.seq < seq),
    }
}

proof fn lemma_run_before_counts(claim: ClaimModel, ledger: LedgerModel, kind: CheckKind)
    ensures
        last_run_before(before(ledger, claim.seq).checks, kind, claim.seq) == last_run_before(
            ledger.checks,
            kind,
            claim.seq,
        ),
        checked_run(claim, before(ledger, claim.seq), kind) == checked_run(claim, ledger, kind),
{
    let p = |c: CheckRunModel| c.kind == kind && c.seq < claim.seq;
    lists::lemma_last_such_kept(ledger.checks, |c: CheckRunModel| c.seq < claim.seq, p);
    match last_run_before(ledger.checks, kind, claim.seq) {
        Some(run) => {
            let f = |w: FileWriteModel|
                if outdates(w, run.seq, claim.seq) {
                    Some(shortened(w.path))
                } else {
                    None
                };
            lists::lemma_selected_kept(ledger.writes, |w: FileWriteModel| w.seq < claim.seq, f);
        },
        None => {},
    }
}

proof fn lemma_worst_before(claim: ClaimModel, ledger: LedgerModel, n: int)
    ensures
        worst_upto(claim, before(ledger, claim.seq), n) == worst_upto(claim, ledger, n),
    decreases n,
{
    if n > 0 {
        lemma_worst_before(claim, ledger, n - 1);
        lemma_run_before_counts(claim, ledger, blanket_kinds()[n - 1]);
    }
}

/// Only evidence that predates a claim counts: whatever happened at the claim or after it can be
/// left out of the ledger, and nothing about the verdict changes.
pub proof fn law_later_evidence_does_not_count(
    claim: ClaimModel,
    ledger: LedgerModel,
    opts: OptionsModel,
)
    ensures
        checked(claim, before(ledger, claim.seq), opts) == checked(claim, ledger, opts),
{
    lemma_run_before_counts(claim, ledger, CheckKind::Test);
    lemma_run_before_counts(claim, ledger, CheckKind::TypeCheck);
    lemma_run_before_counts(claim, ledger, CheckKind::Lint);
    lemma_run_before_counts(claim, ledger, CheckKind::Build);
    lemma_worst_before(claim, ledger, blanket_kinds().len() as int);
    let early = |g: GitOpModel| g.seq < claim.seq;
    lists::lemma_last_such_kept(
        ledger.git_ops,
        early,
        |g: GitOpModel| g.kind == GitOpKind::Commit && g.seq < claim.seq,
    );
    lists::lemma_last_such_kept(
        ledger.git_ops,
        early,
        |g: GitOpModel| g.kind == GitOpKind::Push && g.seq < claim.seq,
    );
    match claim.subject {
        Some(subject) => {
            lists::lemma_any_such_kept(
                ledger.writes,
                |w: FileWriteModel| w.seq < claim.seq,
                |w: FileWriteModel| w.succeeded && w.seq < claim.seq && same_path(w.path, subject),
            );
        },
        None => {},
    }
}

/// Every claim gets one verdict, in its place.
pub proof fn law_every_claim_is_checked(
    claims: Seq<ClaimModel>,
    ledger: LedgerModel,
    opts: OptionsModel,
)
    ensures
        verified(claims, ledger, opts).len() == claims.len(),
        forall|i: int|
            0 <= i < claims.len() ==> (#[trigger] verified(claims, ledger, opts)[i]).claim
                == claims[i],
{
    lemma_worst_claims(claims, ledger);
}

proof fn lemma_worst_claims(claims: Seq<ClaimModel>, ledger: LedgerModel)
    ensures
        forall|i: int|
            0 <= i < claims.len() ==> (#[trigger] checked_blanket(claims[i], ledger)).claim
                == claims[i],
{
    assert forall|i: int| 0 <= i < claims.len() implies (#[trigger] checked_blanket(
        claims[i],
        ledger,
    )).claim == claims[i] by {
        lemma_worst_keeps_claim(claims[i], ledger, blanket_kinds().len() as int);
    }
}

proof fn lemma_worst_keeps_claim(claim: ClaimModel, ledger: LedgerModel, n: int)
    ensures
        worst_upto(claim, ledger, n) matches Some(c) ==> c.claim == claim,
    decreases n,
{
    if n > 0 {
        lemma_worst_keeps_claim(claim, ledger, n - 1);
    }
}

proof fn lemma_worst(claim: ClaimModel, ledger: LedgerModel, n: int)
    requires
        0 <= n <= blanket_kinds().len(),
    ensures
        match worst_upto(claim, ledger, n) {
            Some(c) => (exists|k: int|
                0 <= k < n && last_run_before(
                    ledger.checks,
                    #[trigger] blanket_kinds()[k],
                    claim.seq,
                ) is Some && c == checked_run(claim, ledger, blanket_kinds()[k])) && (forall|k: int|
                0 <= k < n && last_run_before(
                    ledger.checks,
                    #[trigger] blanket_kinds()[k],
                    claim.seq,
                ) is Some ==> badness(checked_run(claim, ledger, blanket_kinds()[k]).verdict)
                    <= badness(c.verdict)),
            None => forall|k: int|
                0 <= k < n ==> last_run_before(
                    ledger.checks,
                    #[trigger] blanket_kinds()[k],
                    claim.seq,
                ) is None,
        },
    decreases n,
{
    if n > 0 {
        lemma_worst(claim, ledger, n - 1);
        let last = blanket_kinds()[n - 1];
        match worst_upto(claim, ledger, n) {
            Some(c) => {
                let ran = last_run_before(ledger.checks, last, claim.seq) is Some;
                if ran && c == checked_run(claim, ledger, last) {
                    assert(last_run_before(
                        ledger.checks,
                        blanket_kinds()[n - 1],
                        claim.seq,
                    ) is Some);
                } else {
                    let k = choose|k: int|
                        0 <= k < n - 1 && last_run_before(
                            ledger.checks,
                            #[trigger] blanket_kinds()[k],
                            claim.seq,
                        ) is Some && c == checked_run(claim, ledger, blanket_kinds()[k]);
                    assert(last_run_before(ledger.checks, blanket_kinds()[k], claim.seq) is Some);
                }
            },
            None => {},
        }
    }
}

/// "All checks pass" is as good as the worst of what ran before it: it is supported only if every
/// kind of check that ran is, and where one of them is contradicted so is it.
pub proof fn law_a_blanket_claim_is_as_good_as_the_worst_run(
    claim: ClaimModel,
    ledger: LedgerModel,
    k: int,
)
    requires
        0 <= k < blanket_kinds().len(),
        last_run_before(ledger.checks, blanket_kinds()[k], claim.seq) is Some,
    ensures
        badness(checked_run(claim, ledger, blanket_kinds()[k]).verdict) <= badness(
            checked_blanket(claim, ledger).verdict,
        ),
{
    lemma_worst(claim, ledger, blanket_kinds().len() as int);
}

/// "All checks pass" is unsupported where nothing ran before it.
pub proof fn law_a_blanket_claim_needs_a_run(claim: ClaimModel, ledger: LedgerModel)
    requires
        forall|i: int| 0 <= i < ledger.checks.len() ==> (#[trigger] ledger.checks[i]).seq >= claim.seq,
    ensures
        checked_blanket(claim, ledger).verdict == Verdict::Unsupported,
{
    lemma_worst(claim, ledger, blanket_kinds().len() as int);
    assert forall|k: int| 0 <= k < blanket_kinds().len() implies last_run_before(
        ledger.checks,
        #[trigger] blanket_kinds()[k],
        claim.seq,
    ) is None by {
        lemma_last_run(ledger.checks, blanket_kinds()[k], claim.seq);
    }
}

/// What was not asked of the working tree does not matter: answers that agree on what
/// [`live_lookups`] asks for lead to the same verdicts.
pub proof fn law_unasked_answers_change_nothing(
    claims: Seq<ClaimModel>,
    ledger: LedgerModel,
    a: OptionsModel,
    b: OptionsModel,
)
    requires
        a.live == b.live,
        a.cwd == b.cwd,
        tree_asked(claims, ledger, a) ==> a.tree_dirty == b.tree_dirty,
        forall|f: Seq<char>| #[trigger]
            files_asked(claims, ledger, a).contains(f) ==> a.existing.contains(f)
                == b.existing.contains(f),
    ensures
        verified(claims, ledger, a) == verified(claims, ledger, b),
{
    let p = |c: ClaimModel| asks_tree(c, ledger);
    let f = |c: ClaimModel| asks_file(c, ledger);
    assert forall|i: int| 0 <= i < claims.len() implies #[trigger] checked(claims[i], ledger, a)
        == checked(claims[i], ledger, b) by {
        let c = claims[i];
        if looks_live(a) {
            if asks_tree(c, ledger) {
                assert(p(claims[i]));
                assert(tree_asked(claims, ledger, a));
            }
            if asks_file(c, ledger) is Some {
                assert(f(claims[i]) is Some);
                lists::lemma_selected_keeps(claims, f, i);
                let subject = asks_file(c, ledger)->0;
                assert(files_asked(claims, ledger, a).contains(subject));
                assert(a.existing.contains(subject) == b.existing.contains(subject));
            }
        }
    }
    assert(verified(claims, ledger, a) =~= verified(claims, ledger, b));
}

/// Without the wish to consult the working tree, only the transcript decides.
pub proof fn law_offline_verdicts_rest_on_the_transcript(
    claims: Seq<ClaimModel>,
    ledger: LedgerModel,
    a: OptionsModel,
    b: OptionsModel,
)
    requires
        !a.live,
        !b.live,
    ensures
        verified(claims, ledger, a) == verified(claims, ledger, b),
{
    assert forall|i: int| 0 <= i < claims.len() implies #[trigger] checked(claims[i], ledger, a)
        == checked(claims[i], ledger, b) by {}
    assert(verified(claims, ledger, a) =~= verified(claims, ledger, b));
}

// ---------------------------------------------------------------- what decides a verdict

/// The verdicts from the best to the worst, and which of them are problems: those that are worse
/// than not knowing.
pub proof fn law_verdicts_are_ranked(v: Verdict)
    ensures
        badness(Verdict::Supported) < badness(Verdict::Inconclusive) < badness(Verdict::Qualified)
            < badness(Verdict::Unsupported) < badness(Verdict::Contradicted),
        is_trouble(v) <==> badness(v) > badness(Verdict::Inconclusive),
        verdict_label(Verdict::Supported) == "supported"@,
        verdict_label(Verdict::Inconclusive) == "inconclusive"@,
        verdict_label(Verdict::Qualified) == "qualified"@,
        verdict_label(Verdict::Unsupported) == "unsupported"@,
        verdict_label(Verdict::Contradicted) == "contradicted"@,
{
}

/// Each claim about a kind of check is held against the runs of that kind.
pub proof fn law_claims_are_held_against_their_own_kind(
    claim: ClaimModel,
    ledger: LedgerModel,
    opts: OptionsModel,
)
    ensures
        claim.kind == ClaimKind::TestsPass ==> checked(claim, ledger, opts) == checked_run(
            claim,
            ledger,
            CheckKind::Test,
        ),
        claim.kind == ClaimKind::TypeCheckPasses ==> checked(claim, ledger, opts) == checked_run(
            claim,
            ledger,
            CheckKind::TypeCheck,
        ),
        claim.kind == ClaimKind::LintPasses ==> checked(claim, ledger, opts) == checked_run(
            claim,
            ledger,
            CheckKind::Lint,
        ),
        claim.kind == ClaimKind::BuildPasses ==> checked(claim, ledger, opts) == checked_run(
            claim,
            ledger,
            CheckKind::Build,
        ),
{
}

/// The last run of the kind before the claim decides. One that failed contradicts it, one that
/// never finished leaves it unsupported, one that could not be read leaves it open, and a pass
/// with anything to qualify it qualifies it. The line that the run was read from is the evidence.
pub proof fn law_the_last_run_decides(
    claim: ClaimModel,
    ledger: LedgerModel,
    kind: CheckKind,
    i: int,
)
    requires
        0 <= i < ledger.checks.len(),
        ledger.checks[i].kind == kind,
        ledger.checks[i].seq < claim.seq,
        forall|j: int|
            i < j < ledger.checks.len() ==> (#[trigger] ledger.checks[j]).kind != kind
                || ledger.checks[j].seq >= claim.seq,
    ensures
        ({
            let run = ledger.checks[i];
            let c = checked_run(claim, ledger, kind);
            &&& c.claim == claim
            &&& c.evidence == run.evidence_line
            &&& run.outcome == Outcome::Failed ==> c.verdict == Verdict::Contradicted
            &&& run.outcome == Outcome::DidNotComplete ==> c.verdict == Verdict::Unsupported
            &&& run.outcome == Outcome::Unknown ==> c.verdict == Verdict::Inconclusive
            &&& run.outcome == Outcome::Passed && run.caveats.len() > 0 ==> c.verdict
                == Verdict::Qualified
            &&& run.outcome == Outcome::Passed ==> c.verdict == Verdict::Qualified || c.verdict
                == Verdict::Supported
        }),
{
    lemma_last_run(ledger.checks, kind, claim.seq);
    assert(is_last_before(ledger.checks, i, kind, claim.seq));
}

/// A pass is out of date where any file was written between the run and the claim that is neither
/// a test nor documentation, by whatever tool and whatever was put in or taken out.
pub proof fn law_a_later_change_outdates_a_pass(
    claim: ClaimModel,
    ledger: LedgerModel,
    kind: CheckKind,
    i: int,
    w: int,
)
    requires
        0 <= i < ledger.checks.len(),
        ledger.checks[i].kind == kind,
        ledger.checks[i].seq < claim.seq,
        forall|j: int|
            i < j < ledger.checks.len() ==> (#[trigger] ledger.checks[j]).kind != kind
                || ledger.checks[j].seq >= claim.seq,
        ledger.checks[i].outcome == Outcome::Passed,
        0 <= w < ledger.writes.len(),
        ledger.writes[w].succeeded,
        ledger.checks[i].seq < ledger.writes[w].seq < claim.seq,
        !evidence::looks_like_test(ledger.writes[w].path),
        !evidence::is_doc(ledger.writes[w].path),
    ensures
        checked_run(claim, ledger, kind).verdict == Verdict::Qualified,
{
    lemma_last_run(ledger.checks, kind, claim.seq);
    assert(is_last_before(ledger.checks, i, kind, claim.seq));
    lemma_nothing_outdated(ledger.writes, ledger.checks[i].seq, claim.seq);
    assert(outdates(ledger.writes[w], ledger.checks[i].seq, claim.seq));
}

/// A pass with nothing to qualify it supports the claim where no such file was written: a write
/// that failed, one before the run or after the claim, a test and documentation do not count.
pub proof fn law_a_current_clean_pass_supports(
    claim: ClaimModel,
    ledger: LedgerModel,
    kind: CheckKind,
    i: int,
)
    requires
        0 <= i < ledger.checks.len(),
        ledger.checks[i].kind == kind,
        ledger.checks[i].seq < claim.seq,
        forall|j: int|
            i < j < ledger.checks.len() ==> (#[trigger] ledger.checks[j]).kind != kind
                || ledger.checks[j].seq >= claim.seq,
        ledger.checks[i].outcome == Outcome::Passed,
        ledger.checks[i].caveats.len() == 0,
        forall|w: int|
            0 <= w < ledger.writes.len() ==> !(#[trigger] ledger.writes[w]).succeeded
                || ledger.writes[w].seq <= ledger.checks[i].seq || ledger.writes[w].seq
                >= claim.seq || evidence::looks_like_test(ledger.writes[w].path)
                || evidence::is_doc(ledger.writes[w].path),
    ensures
        checked_run(claim, ledger, kind).verdict == Verdict::Supported,
        checked_run(claim, ledger, kind).reason == "`"@ + ledger.checks[i].runner
            + "` ran and passed with no edits after it"@,
{
    lemma_last_run(ledger.checks, kind, claim.seq);
    assert(is_last_before(ledger.checks, i, kind, claim.seq));
    lemma_nothing_outdated(ledger.writes, ledger.checks[i].seq, claim.seq);
}

/// A claim that no run of its kind came before is unsupported, and the reason names the kind.
pub proof fn law_without_a_run_nothing_supports(
    claim: ClaimModel,
    ledger: LedgerModel,
    kind: CheckKind,
)
    requires
        forall|j: int|
            0 <= j < ledger.checks.len() ==> (#[trigger] ledger.checks[j]).kind != kind
                || ledger.checks[j].seq >= claim.seq,
    ensures
        ({
            let c = checked_run(claim, ledger, kind);
            let what = match kind {
                CheckKind::Test => "test"@,
                CheckKind::TypeCheck => "type check"@,
                CheckKind::Lint => "lint"@,
                CheckKind::Build => "build"@,
            };
            &&& c.claim == claim
            &&& c.verdict == Verdict::Unsupported
            &&& c.evidence is None
            &&& c.reason == "no "@ + what
                + " run appears anywhere in this session before the claim was made"@
        }),
{
    lemma_last_run(ledger.checks, kind, claim.seq);
}

/// What is said of a run that did not simply pass: how many failed where that is known, that it
/// never finished, that it could not be read, or what qualifies it.
pub proof fn law_reasons_name_what_the_run_did(
    claim: ClaimModel,
    ledger: LedgerModel,
    kind: CheckKind,
    i: int,
)
    requires
        0 <= i < ledger.checks.len(),
        ledger.checks[i].kind == kind,
        ledger.checks[i].seq < claim.seq,
        forall|j: int|
            i < j < ledger.checks.len() ==> (#[trigger] ledger.checks[j]).kind != kind
                || ledger.checks[j].seq >= claim.seq,
    ensures
        ({
            let run = ledger.checks[i];
            let reason = checked_run(claim, ledger, kind).reason;
            let name = "the last `"@ + run.runner + "` run "@;
            &&& run.outcome == Outcome::Failed && run.failed is Some && run.failed->0 > 0
                && run.passed is Some ==> reason == name + (text::decimal_of(run.failed->0 as nat)
                + " failed, "@ + text::decimal_of(run.passed->0 as nat) + " passed"@)
            &&& run.outcome == Outcome::Failed && run.failed is Some && run.failed->0 > 0
                && run.passed is None ==> reason == name + (text::decimal_of(run.failed->0 as nat)
                + " failed"@)
            &&& run.outcome == Outcome::Failed && (run.failed is None || run.failed->0 == 0)
                ==> reason == name + "the run reported failures"@
            &&& run.outcome == Outcome::DidNotComplete ==> reason == "the last `"@ + run.runner
                + "` run never completed (interrupted or blocked)"@
            &&& run.outcome == Outcome::Unknown ==> reason == "`"@ + run.runner
                + "` ran, but its output does not state an outcome backcheck can read"@
            &&& run.outcome == Outcome::Passed && run.caveats.len() == 1 ==> reason == "`"@
                + run.runner + "` passed, but "@ + runners::described(run.caveats[0])
            &&& run.outcome == Outcome::Passed && run.caveats.len() == 2 ==> reason == "`"@
                + run.runner + "` passed, but "@ + (runners::described(run.caveats[0]) + "; "@
                + runners::described(run.caveats[1]))
        }),
{
    lemma_last_run(ledger.checks, kind, claim.seq);
    assert(is_last_before(ledger.checks, i, kind, claim.seq));
    let run = ledger.checks[i];
    let words = run.caveats.map_values(|c: CaveatModel| runners::described(c));
    if run.caveats.len() == 2 {
        assert(words.drop_last() =~= seq![words[0]]);
        assert(text::joined(words.drop_last(), "; "@) == words[0]);
    }
}

/// A pass that is out of date names the files that changed: each of them once, in ascending order,
/// by the last two parts of its path; three of them, and how many more there are.
pub proof fn law_an_outdated_pass_names_the_files(
    claim: ClaimModel,
    ledger: LedgerModel,
    kind: CheckKind,
    i: int,
    files: Seq<Seq<char>>,
)
    requires
        0 <= i < ledger.checks.len(),
        ledger.checks[i].kind == kind,
        ledger.checks[i].seq < claim.seq,
        forall|j: int|
            i < j < ledger.checks.len() ==> (#[trigger] ledger.checks[j]).kind != kind
                || ledger.checks[j].seq >= claim.seq,
        ledger.checks[i].outcome == Outcome::Passed,
        ledger.checks[i].caveats.len() == 0,
        files.len() > 0,
        text::ascending(files),
        forall|f: Seq<char>| #[trigger]
            files.contains(f) <==> exists|w: int|
                0 <= w < ledger.writes.len() && (#[trigger] ledger.writes[w]).succeeded
                    && ledger.checks[i].seq < ledger.writes[w].seq < claim.seq
                    && !evidence::looks_like_test(ledger.writes[w].path) && !evidence::is_doc(
                    ledger.writes[w].path,
                ) && f == shortened(ledger.writes[w].path),
    ensures
        ({
            let reason = checked_run(claim, ledger, kind).reason;
            let head = "`"@ + ledger.checks[i].runner + "` passed, but "@ + text::decimal_of(
                files.len(),
            ) + " file"@ + (if files.len() == 1 {
                ""@
            } else {
                "s"@
            }) + " changed afterwards and were never re-tested ("@;
            &&& files.len() == 1 ==> reason == head + files[0] + ")"@
            &&& files.len() == 2 ==> reason == head + (files[0] + ", "@ + files[1]) + ")"@
            &&& files.len() == 3 ==> reason == head + (files[0] + ", "@ + files[1] + ", "@
                + files[2]) + ")"@
            &&& files.len() > 3 ==> reason == head + (files[0] + ", "@ + files[1] + ", "@ + files[2]
                + ", +"@ + text::decimal_of((files.len() - 3) as nat) + " more"@) + ")"@
        }),
{
    lemma_last_run(ledger.checks, kind, claim.seq);
    assert(is_last_before(ledger.checks, i, kind, claim.seq));
    let run = ledger.checks[i];
    let paths = outdated_paths(ledger.writes, run.seq, claim.seq);
    let found = text::set_of(paths);
    text::lemma_set_of(paths);
    let f = |w: FileWriteModel|
        if outdates(w, run.seq, claim.seq) {
            Some(shortened(w.path))
        } else {
            None
        };
    lists::lemma_selected_from(ledger.writes, f);
    assert forall|x: Seq<char>| #[trigger] files.contains(x) <==> found.contains(x) by {
        if files.contains(x) {
            let w = choose|w: int|
                0 <= w < ledger.writes.len() && (#[trigger] ledger.writes[w]).succeeded && run.seq
                    < ledger.writes[w].seq < claim.seq && !evidence::looks_like_test(
                    ledger.writes[w].path,
                ) && !evidence::is_doc(ledger.writes[w].path) && x == shortened(
                    ledger.writes[w].path,
                );
            assert(f(ledger.writes[w]) == Some(x));
            lists::lemma_selected_keeps(ledger.writes, f, w);
            assert(paths.contains(x));
        }
        if found.contains(x) {
            assert(paths.contains(x));
            let j = choose|j: int| 0 <= j < paths.len() && paths[j] == x;
            let w = choose|w: int|
                0 <= w < ledger.writes.len() && f(#[trigger] ledger.writes[w]) == Some(paths[j]);
            assert(outdates(ledger.writes[w], run.seq, claim.seq));
        }
    }
    text::lemma_same_set(files, found);
    lemma_joined_few(files, ", "@);
    let n: int = if files.len() < 3 {
        files.len() as int
    } else {
        3
    };
    lemma_joined_few(files.take(n), ", "@);
    if files.len() <= 3 {
        assert(files.take(n) =~= files);
    }
}

/// One, two and three texts joined.
proof fn lemma_joined_few(parts: Seq<Seq<char>>, sep: Seq<char>)
    ensures
        parts.len() == 1 ==> text::joined(parts, sep) == parts[0],
        parts.len() == 2 ==> text::joined(parts, sep) == parts[0] + sep + parts[1],
        parts.len() == 3 ==> text::joined(parts, sep) == parts[0] + sep + parts[1] + sep + parts[2],
{
    if parts.len() == 2 {
        assert(text::joined(parts.drop_last(), sep) == parts[0]);
    }
    if parts.len() == 3 {
        let two = parts.drop_last();
        assert(text::joined(two.drop_last(), sep) == parts[0]);
        assert(text::joined(two, sep) == parts[0] + sep + parts[1]);
    }
}

/// A path is shown by its last two parts, and a path of fewer as it is.
pub proof fn law_paths_are_shown_by_their_last_parts(
    dir: Seq<char>,
    above: Seq<char>,
    name: Seq<char>,
)
    requires
        !above.contains('/'),
        !name.contains('/'),
        name.len() > 0,
    ensures
        shortened(dir + seq!['/'] + (above + seq!['/'] + name)) == above + seq!['/'] + name,
        shortened(above + seq!['/'] + name) == above + seq!['/'] + name,
        shortened(name) == name,
{
    reveal_strlit("/");
    let slash = "/"@;
    assert(slash =~= seq!['/']);
    let two = above + seq!['/'] + name;
    let all = dir + seq!['/'] + two;
    text::law_parts_of_a_joined_text(dir, two, '/');
    text::law_parts_of_a_joined_text(above, name, '/');
    text::law_a_text_without_separators_is_one_part(above, '/');
    text::law_a_text_without_separators_is_one_part(name, '/');
    assert(name.contains(name.last()));
    assert(!text::among(slash)(name.last())) by {
        if slash.contains(name.last()) {
            let k = choose|k: int| 0 <= k < slash.len() && slash[k] == name.last();
            assert(slash[k] == '/');
        }
    }
    assert(all.last() == name.last() && two.last() == name.last());
    assert(text::back_trimmed(all, text::among(slash)) == all);
    assert(text::back_trimmed(two, text::among(slash)) == two);
    assert(text::back_trimmed(name, text::among(slash)) == name);
    let parts = text::parts_of(all, '/');
    text::lemma_parts_not_empty(dir, '/');
    assert(text::parts_of(two, '/') =~= seq![above, name]);
    assert(parts.skip(parts.len() - 2) =~= seq![above, name]);
    lemma_joined_few(seq![above, name], slash);
    assert(parts.len() > 2);
    assert(text::joined(seq![above, name], slash) == above + slash + name);
}

/// "All checks pass" gets the verdict of the worst of what ran before it: of tests, type checks,
/// lints and builds, the first whose verdict none is worse than. Where nothing ran it is
/// unsupported.
pub proof fn law_a_blanket_claim_gets_the_worst_verdict(
    claim: ClaimModel,
    ledger: LedgerModel,
    opts: OptionsModel,
)
    requires
        claim.kind == ClaimKind::ChecksPass,
    ensures
        ({
            let c = checked(claim, ledger, opts);
            let kinds = seq![
                CheckKind::Test,
                CheckKind::TypeCheck,
                CheckKind::Lint,
                CheckKind::Build,
            ];
            let ran = |k: int|
                exists|j: int|
                    0 <= j < ledger.checks.len() && (#[trigger] ledger.checks[j]).kind == kinds[k]
                        && ledger.checks[j].seq < claim.seq;
            if ran(0) || ran(1) || ran(2) || ran(3) {
                exists|k: int|
                    0 <= k < 4 && #[trigger] ran(k) && c == checked_run(claim, ledger, kinds[k])
                        && (forall|m: int|
                        0 <= m < 4 && #[trigger] ran(m) ==> badness(
                            checked_run(claim, ledger, kinds[m]).verdict,
                        ) <= badness(c.verdict) && (m < k ==> badness(
                            checked_run(claim, ledger, kinds[m]).verdict,
                        ) < badness(c.verdict)))
            } else {
                &&& c.claim == claim
                &&& c.verdict == Verdict::Unsupported
                &&& c.evidence is None
                &&& c.reason
                    == "no check run appears anywhere in this session before the claim was made"@
            }
        }),
{
    let kinds = seq![CheckKind::Test, CheckKind::TypeCheck, CheckKind::Lint, CheckKind::Build];
    let ran = |k: int|
        exists|j: int|
            0 <= j < ledger.checks.len() && (#[trigger] ledger.checks[j]).kind == kinds[k]
                && ledger.checks[j].seq < claim.seq;
    assert(blanket_kinds() =~= kinds);
    assert forall|k: int| 0 <= k < 4 implies #[trigger] ran(k) == (last_run_before(
        ledger.checks,
        kinds[k],
        claim.seq,
    ) is Some) by {
        lemma_last_run(ledger.checks, kinds[k], claim.seq);
        match last_run_before(ledger.checks, kinds[k], claim.seq) {
            Some(run) => {
                let i = choose|i: int| #[trigger]
                    is_last_before(ledger.checks, i, kinds[k], claim.seq) && ledger.checks[i]
                        == run;
                assert(ledger.checks[i].kind == kinds[k]);
            },
            None => {},
        }
    }
    assert(ran(0) == (last_run_before(ledger.checks, kinds[0], claim.seq) is Some));
    assert(ran(1) == (last_run_before(ledger.checks, kinds[1], claim.seq) is Some));
    assert(ran(2) == (last_run_before(ledger.checks, kinds[2], claim.seq) is Some));
    assert(ran(3) == (last_run_before(ledger.checks, kinds[3], claim.seq) is Some));
    let each = each_kind(claim, ledger);
    lemma_worst_of_each(claim, ledger, 4);
    lemma_first_worst(each, 4);
    match worst_of(each, 4) {
        Some(c) => {
            let k = choose|k: int| #[trigger] is_first_worst(each, k, 4) && each[k] == Some(c);
            assert(ran(k));
            assert(c == checked_run(claim, ledger, kinds[k]));
            assert forall|m: int| 0 <= m < 4 && #[trigger] ran(m) implies badness(
                checked_run(claim, ledger, kinds[m]).verdict,
            ) <= badness(c.verdict) && (m < k ==> badness(
                checked_run(claim, ledger, kinds[m]).verdict,
            ) < badness(c.verdict)) by {
                assert(each[m] == Some(checked_run(claim, ledger, kinds[m])));
            }
        },
        None => {
            assert(each[0] is None && each[1] is None && each[2] is None && each[3] is None);
        },
    }
}

/// What each kind of check says of a claim, where it ran before it.
spec fn each_kind(claim: ClaimModel, ledger: LedgerModel) -> Seq<Option<CheckedModel>> {
    blanket_kinds().map_values(
        |kind: CheckKind|
            if last_run_before(ledger.checks, kind, claim.seq) is None {
                None
            } else {
                Some(checked_run(claim, ledger, kind))
            },
    )
}

/// The first of the worst among the first `n`.
spec fn worst_of(each: Seq<Option<CheckedModel>>, n: int) -> Option<CheckedModel>
    decreases n,
{
    if n <= 0 {
        None
    } else {
        let before = worst_of(each, n - 1);
        match each[n - 1] {
            None => before,
            Some(this) => match before {
                Some(b) if badness(b.verdict) >= badness(this.verdict) => Some(b),
                _ => Some(this),
            },
        }
    }
}

/// None is worse than the one at `k`, and none before it is as bad.
spec fn is_first_worst(each: Seq<Option<CheckedModel>>, k: int, n: int) -> bool {
    &&& 0 <= k < n
    &&& each[k] is Some
    &&& forall|m: int|
        0 <= m < n && (#[trigger] each[m]) is Some ==> badness(each[m]->0.verdict) <= badness(
            each[k]->0.verdict,
        ) && (m < k ==> badness(each[m]->0.verdict) < badness(each[k]->0.verdict))
}

proof fn lemma_worst_of_each(claim: ClaimModel, ledger: LedgerModel, n: int)
    requires
        0 <= n <= blanket_kinds().len(),
    ensures
        worst_upto(claim, ledger, n) == worst_of(each_kind(claim, ledger), n),
    decreases n,
{
    if n > 0 {
        lemma_worst_of_each(claim, ledger, n - 1);
    }
}

proof fn lemma_first_worst(each: Seq<Option<CheckedModel>>, n: int)
    requires
        0 <= n <= each.len(),
    ensures
        match worst_of(each, n) {
            Some(c) => exists|k: int| #[trigger] is_first_worst(each, k, n) && each[k] == Some(c),
            None => forall|k: int| 0 <= k < n ==> (#[trigger] each[k]) is None,
        },
    decreases n,
{
    if n > 0 {
        lemma_first_worst(each, n - 1);
        match worst_of(each, n) {
            Some(c) => {
                let before = worst_of(each, n - 1);
                if before == Some(c) {
                    let k = choose|k: int| #[trigger]
                        is_first_worst(each, k, n - 1) && each[k] == Some(c);
                    if each[n - 1] is None || badness(each[n - 1]->0.verdict) <= badness(
                        c.verdict,
                    ) {
                        assert(is_first_worst(each, k, n));
                    }
                } else {
                    assert(is_first_worst(each, n - 1, n));
                }
            },
            None => {},
        }
    }
}

/// The last commit or push before the claim decides: one that succeeded supports it, one that did
/// not contradicts it, and its output is the evidence.
pub proof fn law_the_last_git_operation_decides(
    claim: ClaimModel,
    ledger: LedgerModel,
    opts: OptionsModel,
    kind: GitOpKind,
    i: int,
)
    requires
        claim.kind == ClaimKind::Committed && kind == GitOpKind::Commit || claim.kind
            == ClaimKind::Pushed && kind == GitOpKind::Push,
        0 <= i < ledger.git_ops.len(),
        ledger.git_ops[i].kind == kind,
        ledger.git_ops[i].seq < claim.seq,
        forall|j: int|
            i < j < ledger.git_ops.len() ==> (#[trigger] ledger.git_ops[j]).kind != kind
                || ledger.git_ops[j].seq >= claim.seq,
    ensures
        ({
            let c = checked(claim, ledger, opts);
            let noun = if kind == GitOpKind::Commit {
                "commit"@
            } else {
                "push"@
            };
            &&& c.claim == claim
            &&& c.evidence == ledger.git_ops[i].output_line
            &&& ledger.git_ops[i].succeeded ==> c.verdict == Verdict::Supported && c.reason
                == "a `git "@ + noun + "` ran and reported success"@
            &&& !ledger.git_ops[i].succeeded ==> c.verdict == Verdict::Contradicted && c.reason
                == "`git "@ + noun + "` ran but did not succeed"@
        }),
{
    let ops = ledger.git_ops;
    let p = |g: GitOpModel| g.kind == kind && g.seq < claim.seq;
    lists::lemma_last_such(ops, p);
    assert(p(ops[i]));
    assert(lists::last_such(ops, p) is Some);
    let a = lists::last_such(ops, p)->0;
    let k = choose|k: int|
        0 <= k < ops.len() && #[trigger] ops[k] == a && p(a) && (forall|j: int|
            k < j < ops.len() ==> !p(#[trigger] ops[j]));
    if k < i {
        assert(!p(ops[i]));
    }
    if i < k {
        assert(ops[k].kind != kind || ops[k].seq >= claim.seq);
    }
    assert(last_op_before(ops, kind, claim.seq) == Some(ops[i]));
}

/// A commit or push that the session does not show before the claim is unsupported. Changes that
/// git still reports are mentioned only of a commit, and only where git was to be asked.
pub proof fn law_without_a_git_operation_nothing_supports(
    claim: ClaimModel,
    ledger: LedgerModel,
    opts: OptionsModel,
    kind: GitOpKind,
)
    requires
        claim.kind == ClaimKind::Committed && kind == GitOpKind::Commit || claim.kind
            == ClaimKind::Pushed && kind == GitOpKind::Push,
        forall|j: int|
            0 <= j < ledger.git_ops.len() ==> (#[trigger] ledger.git_ops[j]).kind != kind
                || ledger.git_ops[j].seq >= claim.seq,
    ensures
        ({
            let c = checked(claim, ledger, opts);
            &&& c.claim == claim
            &&& c.verdict == Verdict::Unsupported
            &&& if kind == GitOpKind::Commit && opts.live && opts.cwd is Some && opts.tree_dirty
                == Some(true) {
                &&& c.reason == "no `git "@ + "commit"@
                    + "` in this session, and the working tree still has uncommitted changes"@
                &&& c.evidence == Some("git status --porcelain reports modified files"@)
            } else {
                &&& c.reason == "no `git "@ + (if kind == GitOpKind::Commit {
                    "commit"@
                } else {
                    "push"@
                }) + "` appears in this session"@
                &&& c.evidence is None
            }
        }),
{
    let ops = ledger.git_ops;
    let p = |g: GitOpModel| g.kind == kind && g.seq < claim.seq;
    lists::lemma_last_such(ops, p);
    if let Some(a) = lists::last_such(ops, p) {
        let k = choose|k: int|
            0 <= k < ops.len() && #[trigger] ops[k] == a && p(a) && (forall|j: int|
                k < j < ops.len() ==> !p(#[trigger] ops[j]));
        assert(ops[k].kind != kind || ops[k].seq >= claim.seq);
    }
    assert(last_op_before(ops, kind, claim.seq) is None);
}

/// A file claim is supported by a write to that path that succeeded before the claim. Without one
/// the file system decides where it was to be asked, and otherwise nothing does; a claim that
/// names no file is left open.
pub proof fn law_what_supports_a_file_claim(
    claim: ClaimModel,
    ledger: LedgerModel,
    opts: OptionsModel,
)
    requires
        claim.kind == ClaimKind::FileWritten,
    ensures
        ({
            let c = checked(claim, ledger, opts);
            &&& c.claim == claim
            &&& c.evidence is None
            &&& claim.subject is None ==> c.verdict == Verdict::Inconclusive && c.reason
                == "no file path could be read from the claim"@
            &&& claim.subject matches Some(file) ==> {
                let written = exists|w: int|
                    0 <= w < ledger.writes.len() && (#[trigger] ledger.writes[w]).succeeded
                        && ledger.writes[w].seq < claim.seq && same_path(
                        ledger.writes[w].path,
                        file,
                    );
                if written {
                    &&& c.verdict == Verdict::Supported
                    &&& c.reason == "`"@ + file + "` was written by a tool call in this session"@
                } else if !opts.live || opts.cwd is None {
                    &&& c.verdict == Verdict::Inconclusive
                    &&& c.reason == "no write to `"@ + file
                        + "` recorded; run with --live to check the filesystem"@
                } else if opts.existing.contains(file) {
                    &&& c.verdict == Verdict::Supported
                    &&& c.reason == "`"@ + file + "` exists on disk"@
                } else {
                    &&& c.verdict == Verdict::Unsupported
                    &&& c.reason == "`"@ + file
                        + "` was never written in this session and does not exist on disk"@
                }
            }
        }),
{
    if let Some(file) = claim.subject {
        let ws = ledger.writes;
        let p = |w: FileWriteModel| w.succeeded && w.seq < claim.seq && same_path(w.path, file);
        if lists::any_such(ws, p) {
            let i = choose|i: int| 0 <= i < ws.len() && p(#[trigger] ws[i]);
            assert(ws[i].succeeded);
        } else {
            assert forall|w: int| 0 <= w < ws.len() implies !((#[trigger] ws[w]).succeeded
                && ws[w].seq < claim.seq && same_path(ws[w].path, file)) by {
                assert(!p(ws[w]));
            }
        }
    }
}

/// Two paths are taken for the same where they are equal, where the recorded one ends in the
/// claimed one behind a separator, or where the claimed one ends in the recorded one.
pub proof fn law_which_paths_are_taken_for_the_same(recorded: Seq<char>, claimed: Seq<char>)
    requires
        !recorded.contains('\\'),
        !claimed.contains('\\'),
    ensures
        same_path(recorded, claimed) <==> recorded == claimed || text::ends(
            recorded,
            seq!['/'] + claimed,
        ) || text::ends(claimed, recorded),
{
    reveal_strlit("/");
    let slash = "/"@;
    assert(slash =~= seq!['/']);
    assert forall|i: int| 0 <= i < recorded.len() implies recorded[i] != '\\' by {
        assert(recorded.contains(recorded[i]));
    }
    assert forall|i: int| 0 <= i < claimed.len() implies claimed[i] != '\\' by {
        assert(claimed.contains(claimed[i]));
    }
    assert(text::with_char(recorded, '\\', '/') =~= recorded);
    assert(text::with_char(claimed, '\\', '/') =~= claimed);
    let p = text::among(slash);
    assert forall|c: char| #[trigger] p(c) <==> c == '/' by {
        assert(slash[0] == '/');
        if slash.contains(c) {
            let k = choose|k: int| 0 <= k < slash.len() && slash[k] == c;
        }
    }
    if !claimed.contains('/') {
        lemma_no_directory(claimed, p);
        lemma_name_behind(recorded, p);
        let name = text::after_last(recorded, p);
        if name == claimed && recorded != claimed {
            let n = recorded.len() - name.len();
            assert(recorded.skip(0) =~= recorded);
            assert(recorded.subrange(n - 1, recorded.len() as int).skip(1) =~= recorded.skip(n));
            assert(recorded.subrange(n - 1, recorded.len() as int) =~= seq!['/'] + claimed);
            assert((seq!['/'] + claimed).len() == claimed.len() + 1);
        }
    }
}

/// A text without separators is its own name.
proof fn lemma_no_directory(s: Seq<char>, p: spec_fn(char) -> bool)
    requires
        forall|c: char| #[trigger] p(c) <==> c == '/',
        !s.contains('/'),
    ensures
        text::after_last(s, p) == s,
    decreases s.len(),
{
    if s.len() > 0 {
        let front = s.drop_last();
        assert(s.contains(s.last()));
        assert(!p(s.last()));
        if front.contains('/') {
            let i = choose|i: int| 0 <= i < front.len() && front[i] == '/';
            assert(s[i] == '/');
        }
        lemma_no_directory(front, p);
        assert(front.push(s.last()) =~= s);
    }
}

/// The name of a file stands at the end of its path, behind a separator or at its start.
proof fn lemma_name_behind(s: Seq<char>, p: spec_fn(char) -> bool)
    requires
        forall|c: char| #[trigger] p(c) <==> c == '/',
    ensures
        ({
            let name = text::after_last(s, p);
            &&& name.len() <= s.len()
            &&& s.skip(s.len() - name.len()) == name
            &&& name.len() < s.len() ==> s[s.len() - name.len() - 1] == '/'
        }),
    decreases s.len(),
{
    if s.len() > 0 && !p(s.last()) {
        let front = s.drop_last();
        lemma_name_behind(front, p);
        let name = text::after_last(s, p);
        let n = s.len() - name.len();
        assert(front.skip(n).push(s.last()) =~= s.skip(n));
    } else {
        assert(s.skip(s.len() as int) =~= Seq::empty());
    }
}

/// A separator of one system is as good as that of the other.
pub proof fn law_separators_are_alike(recorded: Seq<char>, claimed: Seq<char>)
    ensures
        ({
            let plain = |s: Seq<char>|
                Seq::new(
                    s.len(),
                    |i: int|
                        if s[i] == '\\' {
                            '/'
                        } else {
                            s[i]
                        },
                );
            same_path(recorded, claimed) == same_path(plain(recorded), plain(claimed))
        }),
{
    let plain = |s: Seq<char>|
        Seq::new(
            s.len(),
            |i: int|
                if s[i] == '\\' {
                    '/'
                } else {
                    s[i]
                },
        );
    assert(text::with_char(recorded, '\\', '/') =~= plain(recorded));
    assert(text::with_char(claimed, '\\', '/') =~= plain(claimed));
    assert(text::with_char(plain(recorded), '\\', '/') =~= plain(recorded));
    assert(text::with_char(plain(claimed), '\\', '/') =~= plain(claimed));
}

/// The working tree is looked at exactly where a claim to have committed finds no commit before
/// it, and a file exactly where a claim to have written it finds no write; and only where that was
/// asked for and there is a directory to look in.
pub proof fn law_what_is_looked_up(
    claims: Seq<ClaimModel>,
    ledger: LedgerModel,
    opts: OptionsModel,
    file: Seq<char>,
)
    ensures
        tree_asked(claims, ledger, opts) <==> opts.live && opts.cwd is Some && exists|i: int|
            0 <= i < claims.len() && (#[trigger] claims[i]).kind == ClaimKind::Committed && (forall|
                j: int,
            |
                0 <= j < ledger.git_ops.len() ==> (#[trigger] ledger.git_ops[j]).kind
                    != GitOpKind::Commit || ledger.git_ops[j].seq >= claims[i].seq),
        files_asked(claims, ledger, opts).contains(file) <==> opts.live && opts.cwd is Some
            && exists|i: int|
            0 <= i < claims.len() && (#[trigger] claims[i]).kind == ClaimKind::FileWritten
                && claims[i].subject == Some(file) && (forall|w: int|
                0 <= w < ledger.writes.len() ==> !((#[trigger] ledger.writes[w]).succeeded
                    && ledger.writes[w].seq < claims[i].seq && same_path(
                    ledger.writes[w].path,
                    file,
                ))),
{
    let ops = ledger.git_ops;
    assert forall|i: int| 0 <= i < claims.len() implies asks_tree(#[trigger] claims[i], ledger) == (
    claims[i].kind == ClaimKind::Committed && (forall|j: int|
        0 <= j < ops.len() ==> (#[trigger] ops[j]).kind != GitOpKind::Commit || ops[j].seq
            >= claims[i].seq)) by {
        let p = |g: GitOpModel| g.kind == GitOpKind::Commit && g.seq < claims[i].seq;
        lists::lemma_last_such(ops, p);
        match lists::last_such(ops, p) {
            Some(a) => {
                let k = choose|k: int|
                    0 <= k < ops.len() && #[trigger] ops[k] == a && p(a) && (forall|j: int|
                        k < j < ops.len() ==> !p(#[trigger] ops[j]));
                assert(ops[k].kind == GitOpKind::Commit);
            },
            None => {
                assert forall|j: int| 0 <= j < ops.len() implies (#[trigger] ops[j]).kind
                    != GitOpKind::Commit || ops[j].seq >= claims[i].seq by {
                    assert(!p(ops[j]));
                }
            },
        }
    }
    let t = |c: ClaimModel| asks_tree(c, ledger);
    if lists::any_such(claims, t) {
        let i = choose|i: int| 0 <= i < claims.len() && t(#[trigger] claims[i]);
        assert(asks_tree(claims[i], ledger));
    } else {
        assert forall|i: int| 0 <= i < claims.len() implies !asks_tree(
            #[trigger] claims[i],
            ledger,
        ) by {
            assert(!t(claims[i]));
        }
    }
    let ws = ledger.writes;
    let f = |c: ClaimModel| asks_file(c, ledger);
    assert forall|i: int| 0 <= i < claims.len() implies (f(#[trigger] claims[i]) == Some(file)) == (
    claims[i].kind == ClaimKind::FileWritten && claims[i].subject == Some(file) && (forall|w: int|
        0 <= w < ws.len() ==> !((#[trigger] ws[w]).succeeded && ws[w].seq < claims[i].seq
            && same_path(ws[w].path, file)))) by {
        let p = |w: FileWriteModel|
            w.succeeded && w.seq < claims[i].seq && same_path(w.path, file);
        if lists::any_such(ws, p) {
            let k = choose|k: int| 0 <= k < ws.len() && p(#[trigger] ws[k]);
            assert(ws[k].succeeded);
        } else {
            assert forall|w: int| 0 <= w < ws.len() implies !((#[trigger] ws[w]).succeeded
                && ws[w].seq < claims[i].seq && same_path(ws[w].path, file)) by {
                assert(!p(ws[w]));
            }
        }
    }
    let found = lists::selected(claims, f);
    lists::lemma_selected_from(claims, f);
    if found.contains(file) {
        let j = choose|j: int| 0 <= j < found.len() && found[j] == file;
        let i = choose|i: int| 0 <= i < claims.len() && f(#[trigger] claims[i]) == Some(found[j]);
        assert(f(claims[i]) == Some(file));
    }
    if exists|i: int| 0 <= i < claims.len() && f(#[trigger] claims[i]) == Some(file) {
        let i = choose|i: int| 0 <= i < claims.len() && f(#[trigger] claims[i]) == Some(file);
        lists::lemma_selected_keeps(claims, f, i);
    }
}

} // verus!
