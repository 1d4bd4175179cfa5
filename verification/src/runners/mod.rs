//! Recognising verification commands and reading their outcome from their output.
//!
//! The work splits three ways, and a new runner usually touches only the first two:
//!
//! - [`classify`] decides what kind of check a command performs
//! - [`outcome`] reads the verdict out of what that command printed
//! - [`command`] handles shell mechanics: chaining, wrappers, and which output belongs to which step
//!
//! [`analyse`] joins them up for one Bash call from a transcript.

use vstd::prelude::*;

use crate::lists;
use crate::pattern;
use crate::pattern::Pattern;
use crate::runners::command::{Join, Region, RegionModel};
use crate::runners::outcome::{Reading, ReadingModel};
use crate::text;

pub mod classify;
pub mod command;
pub mod outcome;

pub use crate::runners::classify::classify;
pub use crate::runners::command::split_segments;

verus! {

/// What kind of check a command performs.
#[derive(Debug, Clone, Copy, PartialEq, Eq, Structural)]
pub enum CheckKind {
    Test,
    TypeCheck,
    Lint,
    Build,
}

impl DeepView for CheckKind {
    type V = CheckKind;

    open spec fn deep_view(&self) -> CheckKind {
        *self
    }
}

/// The word that stands for a kind of check in a report.
pub open spec fn kind_label(kind: CheckKind) -> Seq<char> {
    match kind {
        CheckKind::Test => "test"@,
        CheckKind::TypeCheck => "type check"@,
        CheckKind::Lint => "lint"@,
        CheckKind::Build => "build"@,
    }
}

impl CheckKind {
    pub fn label(&self) -> (r: &'static str)
        ensures
            r@ == kind_label(*self),
    {
        match self {
            CheckKind::Test => "test",
            CheckKind::TypeCheck => "type check",
            CheckKind::Lint => "lint",
            CheckKind::Build => "build",
        }
    }
}

#[derive(Debug, Clone, Copy, PartialEq, Eq, Structural)]
pub enum Outcome {
    Passed,
    Failed,
    /// The command ran but its result could not be determined from the output.
    Unknown,
    /// The command never finished: interrupted, timed out, or blocked.
    DidNotComplete,
}

impl DeepView for Outcome {
    type V = Outcome;

    open spec fn deep_view(&self) -> Outcome {
        *self
    }
}

/// Reasons a run does not fully back a blanket "everything passes" claim.
#[derive(Debug, PartialEq, Eq)]
pub enum Caveat {
    /// Only a subset of tests ran (`-k`, `--only`, an explicit file or test id).
    SubsetOnly(String),
    /// The run stopped at the first failure, so later tests never executed.
    StopsEarly(String),
    /// Failure was swallowed by the shell (`|| true`, `; exit 0`, `set +e`).
    FailureSuppressed(String),
    /// Output was piped through something that can hide the summary.
    OutputFiltered(String),
    /// The runner reported that it collected no tests at all.
    NoTestsRan,
}

/// What a [`Caveat`] stands for.
#[verifier::ext_equal]
pub enum CaveatModel {
    SubsetOnly(Seq<char>),
    StopsEarly(Seq<char>),
    FailureSuppressed(Seq<char>),
    OutputFiltered(Seq<char>),
    NoTestsRan,
}

impl DeepView for Caveat {
    type V = CaveatModel;

    open spec fn deep_view(&self) -> CaveatModel {
        match self {
            Caveat::SubsetOnly(w) => CaveatModel::SubsetOnly(w@),
            Caveat::StopsEarly(w) => CaveatModel::StopsEarly(w@),
            Caveat::FailureSuppressed(w) => CaveatModel::FailureSuppressed(w@),
            Caveat::OutputFiltered(w) => CaveatModel::OutputFiltered(w@),
            Caveat::NoTestsRan => CaveatModel::NoTestsRan,
        }
    }
}

impl Clone for Caveat {
    fn clone(&self) -> (r: Self)
        ensures
            r.deep_view() == self.deep_view(),
    {
        match self {
            Caveat::SubsetOnly(w) => Caveat::SubsetOnly(w.clone()),
            Caveat::StopsEarly(w) => Caveat::StopsEarly(w.clone()),
            Caveat::FailureSuppressed(w) => Caveat::FailureSuppressed(w.clone()),
            Caveat::OutputFiltered(w) => Caveat::OutputFiltered(w.clone()),
            Caveat::NoTestsRan => Caveat::NoTestsRan,
        }
    }
}

/// A caveat in words.
pub open spec fn described(c: CaveatModel) -> Seq<char> {
    match c {
        CaveatModel::SubsetOnly(w) => "only a subset of tests ran ("@ + w + ")"@,
        CaveatModel::StopsEarly(w) => "run stops at first failure ("@ + w + ")"@,
        CaveatModel::FailureSuppressed(w) => "a non-zero exit would be hidden by `"@ + w + "`"@,
        CaveatModel::OutputFiltered(w) => "output was filtered through `"@ + w + "`"@,
        CaveatModel::NoTestsRan => "the runner collected no tests"@,
    }
}

impl Caveat {
    pub fn describe(&self) -> (r: String)
        ensures
            r@ == described(self.deep_view()),
    {
        match self {
            Caveat::SubsetOnly(w) => text::concat3("only a subset of tests ran (", w, ")"),
            Caveat::StopsEarly(w) => text::concat3("run stops at first failure (", w, ")"),
            Caveat::FailureSuppressed(w) => text::concat3(
                "a non-zero exit would be hidden by `",
                w,
                "`",
            ),
            Caveat::OutputFiltered(w) => text::concat3("output was filtered through `", w, "`"),
            Caveat::NoTestsRan => "the runner collected no tests".to_owned(),
        }
    }
}

/// A single recognised check command and what became of it.
#[derive(Debug)]
pub struct CheckRun {
    pub seq: usize,
    pub kind: CheckKind,
    /// The tool that ran, e.g. `pytest`, `cargo test`.
    pub runner: String,
    pub command: String,
    pub outcome: Outcome,
    pub caveats: Vec<Caveat>,
    /// Counts when the runner reported them.
    pub passed: Option<u32>,
    pub failed: Option<u32>,
    /// A short line of output supporting the verdict, shown to the user as proof.
    pub evidence_line: Option<String>,
}

/// What a [`CheckRun`] stands for.
#[verifier::ext_equal]
pub struct CheckRunModel {
    pub seq: usize,
    pub kind: CheckKind,
    pub runner: Seq<char>,
    pub command: Seq<char>,
    pub outcome: Outcome,
    pub caveats: Seq<CaveatModel>,
    pub passed: Option<u32>,
    pub failed: Option<u32>,
    pub evidence_line: Option<Seq<char>>,
}

impl DeepView for CheckRun {
    type V = CheckRunModel;

    open spec fn deep_view(&self) -> CheckRunModel {
        CheckRunModel {
            seq: self.seq,
            kind: self.kind,
            runner: self.runner@,
            command: self.command@,
            outcome: self.outcome,
            caveats: self.caveats.deep_view(),
            passed: self.passed,
            failed: self.failed,
            evidence_line: self.evidence_line.deep_view(),
        }
    }
}

impl Clone for CheckRun {
    fn clone(&self) -> (r: Self)
        ensures
            r.deep_view() == self.deep_view(),
    {
        CheckRun {
            seq: self.seq,
            kind: self.kind,
            runner: self.runner.clone(),
            command: self.command.clone(),
            outcome: self.outcome,
            caveats: copy_caveats(&self.caveats),
            passed: self.passed,
            failed: self.failed,
            evidence_line: text::copied(&self.evidence_line),
        }
    }
}

/// A pass with nothing qualifying it.
pub open spec fn clean_pass(run: CheckRunModel) -> bool {
    run.outcome == Outcome::Passed && run.caveats.len() == 0
}

impl CheckRun {
    /// A clean pass is a pass with nothing qualifying it.
    pub fn is_clean_pass(&self) -> (r: bool)
        ensures
            r == clean_pass(self.deep_view()),
    {
        self.outcome == Outcome::Passed && self.caveats.len() == 0
    }
}

/// The caveats, copied.
pub fn copy_caveats(caveats: &Vec<Caveat>) -> (r: Vec<Caveat>)
    ensures
        r.deep_view() == caveats.deep_view(),
{
    let mut out: Vec<Caveat> = Vec::new();
    for i in 0..caveats.len()
        invariant
            out@.len() == i,
            forall|k: int| 0 <= k < i ==> (#[trigger] out@[k]).deep_view() == caveats@[k].deep_view(),
    {
        out.push(caveats[i].clone());
    }
    assert(out.deep_view() =~= caveats.deep_view());
    out
}

// ---------------------------------------------------------------- qualifying one run

/// Some caveat says that only a subset ran.
pub open spec fn has_subset(caveats: Seq<CaveatModel>) -> bool {
    exists|i: int| 0 <= i < caveats.len() && (#[trigger] caveats[i]) is SubsetOnly
}

/// The caveats with one about a subset added, where none is there yet.
pub open spec fn with_subset(caveats: Seq<CaveatModel>, c: Option<CaveatModel>) -> Seq<CaveatModel> {
    match c {
        Some(c) if !has_subset(caveats) => caveats.push(c),
        _ => caveats,
    }
}

/// What the command and the runner say of the scope of a run.
pub open spec fn scope_caveats(
    kind: CheckKind,
    flags: Seq<CaveatModel>,
    named: Option<CaveatModel>,
    left_out: Option<CaveatModel>,
) -> Seq<CaveatModel> {
    if kind == CheckKind::Test {
        with_subset(with_subset(flags, named), left_out)
    } else {
        flags
    }
}

/// A reading of a run that the shell stopped or flagged: one that settled nothing means that the
/// run did not complete.
pub open spec fn settled(parsed: ReadingModel, stopped: bool) -> ReadingModel {
    if parsed.outcome == Outcome::Unknown && stopped {
        ReadingModel {
            outcome: Outcome::DidNotComplete,
            passed: None,
            failed: None,
            evidence: None,
        }
    } else {
        parsed
    }
}

/// A caveat about visibility.
pub open spec fn about_filtering() -> spec_fn(CaveatModel) -> bool {
    |c: CaveatModel| c is OutputFiltered
}

/// A caveat about a run cut short.
pub open spec fn about_stopping() -> spec_fn(CaveatModel) -> bool {
    |c: CaveatModel| c is StopsEarly
}

/// Keeps the caveats that `p` does not hold of.
pub open spec fn unless(p: spec_fn(CaveatModel) -> bool) -> spec_fn(CaveatModel) -> Option<
    CaveatModel,
> {
    |c: CaveatModel|
        if p(c) {
            None
        } else {
            Some(c)
        }
}

/// The caveats without those about filtering.
pub open spec fn without_filtering(cs: Seq<CaveatModel>) -> Seq<CaveatModel> {
    lists::selected(cs, unless(about_filtering()))
}

/// The caveats without those about stopping early.
pub open spec fn without_stopping(cs: Seq<CaveatModel>) -> Seq<CaveatModel> {
    lists::selected(cs, unless(about_stopping()))
}

/// The runner reported that it collected no tests at all: it failed, with no test passed and none
/// failed.
pub open spec fn collected_nothing(reading: ReadingModel) -> bool {
    &&& reading.outcome == Outcome::Failed
    &&& reading.passed == Some(0u32)
    &&& reading.failed is None || reading.failed == Some(0u32)
}

/// The caveats that bear on a reading, `hiding` being what the command line does to hide a
/// failure.
pub open spec fn qualified(
    scope: Seq<CaveatModel>,
    reading: ReadingModel,
    hiding: Seq<CaveatModel>,
) -> Seq<CaveatModel> {
    let counted = if collected_nothing(reading) {
        scope.push(CaveatModel::NoTestsRan)
    } else {
        scope
    };
    let visible = if reading.evidence is None {
        counted + hiding
    } else {
        without_filtering(counted)
    };
    if reading.outcome == Outcome::Passed {
        without_stopping(visible)
    } else {
        visible
    }
}

fn add_subset(caveats: &mut Vec<Caveat>, c: Option<Caveat>)
    ensures
        final(caveats).deep_view() == with_subset(old(caveats).deep_view(), c.deep_view()),
{
    if let Some(c) = c {
        let mut seen = false;
        let ghost cs = caveats.deep_view();
        for i in 0..caveats.len()
            invariant
                cs == caveats.deep_view(),
                seen == exists|k: int| 0 <= k < i && (#[trigger] cs[k]) is SubsetOnly,
        {
            assert(cs[i as int] == caveats@[i as int].deep_view());
            if let Caveat::SubsetOnly(_) = &caveats[i] {
                seen = true;
            }
        }
        if !seen {
            caveats.push(c);
            assert(caveats.deep_view() =~= cs.push(c.deep_view()));
        }
    }
}

/// What the command and the runner say of the scope of a run: its own flags, then a test file
/// that it names, then what the runner says it left out.
///
/// Some runners say outright how much of the suite they skipped. cargo prints "1584 filtered out"
/// when a name filter narrowed the run, which is far more reliable than inferring a subset from
/// the command line.
pub fn scope(kind: CheckKind, flags: Vec<Caveat>, named: Option<Caveat>, left_out: Option<Caveat>) -> (r:
    Vec<Caveat>)
    ensures
        r.deep_view() == scope_caveats(
            kind,
            flags.deep_view(),
            named.deep_view(),
            left_out.deep_view(),
        ),
{
    let mut out = flags;
    if kind == CheckKind::Test {
        add_subset(&mut out, named);
        add_subset(&mut out, left_out);
    }
    out
}

/// Decide what an error flag means, once the output has been read.
///
/// A failure in one part of a chain ("echo ===" tripping the shell) marks the whole call as
/// errored, but a runner that already printed "1465 passed" plainly finished. Only a result that
/// is genuinely unknown becomes "did not complete".
pub fn settle(parsed: Reading, stopped: bool) -> (r: Reading)
    ensures
        r.deep_view() == settled(parsed.deep_view(), stopped),
{
    if parsed.outcome == Outcome::Unknown && stopped {
        return Reading {
            outcome: Outcome::DidNotComplete,
            passed: None,
            failed: None,
            evidence: None,
        };
    }
    parsed
}

/// The caveats of which `f` does not hold, `f` deciding `p`.
fn drop_such<F: Fn(&Caveat) -> bool>(
    caveats: &Vec<Caveat>,
    f: F,
    Ghost(p): Ghost<spec_fn(CaveatModel) -> bool>,
) -> (r: Vec<Caveat>)
    requires
        forall|c: &Caveat| call_requires(f, (c,)),
        forall|c: &Caveat, b: bool| call_ensures(f, (c,), b) ==> b == p(c.deep_view()),
    ensures
        r.deep_view() == lists::selected(caveats.deep_view(), unless(p)),
{
    let ghost cs = caveats.deep_view();
    let mut out: Vec<Caveat> = Vec::new();
    for i in 0..caveats.len()
        invariant
            cs == caveats.deep_view(),
            forall|c: &Caveat| call_requires(f, (c,)),
            forall|c: &Caveat, b: bool| call_ensures(f, (c,), b) ==> b == p(c.deep_view()),
            out.deep_view() == lists::selected(cs.take(i as int), unless(p)),
    {
        let ghost before = out.deep_view();
        proof {
            lists::lemma_selected_step(cs, unless(p), i as int);
        }
        if !f(&caveats[i]) {
            out.push(caveats[i].clone());
            assert(out.deep_view() =~= before.push(cs[i as int]));
        }
    }
    assert(cs.take(cs.len() as int) =~= cs);
    out
}

/// Keep the caveats that bear on what was read.
///
/// Caveats about *visibility* only bite when the verdict rested on not seeing a failure. Output
/// is read rather than exit status, so once a runner has printed a definitive summary
/// ("40 passed", "built in 1.10s"), a trailing `|| true` or a `| head` did not hide the answer and
/// saying so is noise. Caveats about *scope* are different: a subset run really did test less.
///
/// `-x` and `--maxfail` only cut a run short once something fails. A run that passed was never
/// truncated by them, so the flag says nothing about coverage.
pub fn qualify(scope: Vec<Caveat>, reading: &Reading, hiding: Vec<Caveat>) -> (r: Vec<Caveat>)
    ensures
        r.deep_view() == qualified(scope.deep_view(), reading.deep_view(), hiding.deep_view()),
{
    let mut out = scope;
    let none_failed = match reading.failed {
        Some(n) => n == 0,
        None => true,
    };
    let none_passed = match reading.passed {
        Some(n) => n == 0,
        None => false,
    };
    if reading.outcome == Outcome::Failed && none_failed && none_passed {
        let ghost before = out.deep_view();
        out.push(Caveat::NoTestsRan);
        assert(out.deep_view() =~= before.push(CaveatModel::NoTestsRan));
    }
    if reading.evidence.is_none() {
        let ghost counted = out.deep_view();
        let mut hiding = hiding;
        let ghost hs = hiding.deep_view();
        out.append(&mut hiding);
        assert(out.deep_view() =~= counted + hs);
    } else {
        let hit = |c: &Caveat| -> (b: bool)
            ensures
                b == about_filtering()(c.deep_view()),
        {
            matches!(c, Caveat::OutputFiltered(_))
        };
        out = drop_such(&out, hit, Ghost(about_filtering()));
    }
    if reading.outcome == Outcome::Passed {
        let hit = |c: &Caveat| -> (b: bool)
            ensures
                b == about_stopping()(c.deep_view()),
        {
            matches!(c, Caveat::StopsEarly(_))
        };
        out = drop_such(&out, hit, Ghost(about_stopping()));
    }
    out
}

// ---------------------------------------------------------------- the runs of one command

/// A line in which a script shows that it runs the TypeScript compiler.
pub const TSC_STEP: &'static str = r"(?m)^\s*>\s*[^\n]*\btsc\b";

/// The runs that one segment stands for. `tsc_shown` says that its output shows a script running
/// the TypeScript compiler.
pub open spec fn runs_for(
    seq: usize,
    kind: CheckKind,
    runner: Seq<char>,
    segment: Seq<char>,
    reading: ReadingModel,
    caveats: Seq<CaveatModel>,
    tsc_shown: bool,
) -> Seq<CheckRunModel> {
    let own = CheckRunModel {
        seq,
        kind,
        runner,
        command: segment,
        outcome: reading.outcome,
        caveats,
        passed: reading.passed,
        failed: reading.failed,
        evidence_line: reading.evidence,
    };
    if kind == CheckKind::Build && reading.outcome == Outcome::Passed && tsc_shown {
        let types = CheckRunModel {
            seq,
            kind: CheckKind::TypeCheck,
            runner: "tsc"@,
            command: segment,
            outcome: Outcome::Passed,
            caveats,
            passed: None,
            failed: Some(0),
            evidence_line: Some("the build ran `tsc` and completed"@),
        };
        seq![types, own]
    } else {
        seq![own]
    }
}

/// The caveats that a segment's own words and its output put on its run.
pub open spec fn segment_scope(kind: CheckKind, segment: Seq<char>, output: Seq<char>) -> Seq<
    CaveatModel,
> {
    scope_caveats(
        kind,
        classify::flag_caveats(segment, kind),
        classify::named_subset(
            segment,
            pattern::regex_captures(classify::TEST_FILE@, segment),
        ),
        classify::left_out(pattern::regex_captures(classify::FILTERED@, output)),
    )
}

/// The runs that one segment of a command stands for.
pub open spec fn segment_runs(
    seq: usize,
    command: Seq<char>,
    segment: Seq<char>,
    region: RegionModel,
    stopped: bool,
) -> Seq<CheckRunModel> {
    match classify::classified(segment) {
        None => Seq::empty(),
        Some((kind, runner)) => {
            let reading = settled(
                outcome::outcome_of(runner, kind, region.text, region.exclusive),
                stopped,
            );
            runs_for(
                seq,
                kind,
                runner,
                segment,
                reading,
                qualified(
                    segment_scope(kind, segment, region.text),
                    reading,
                    classify::suppressions(command),
                ),
                pattern::regex_is_match(TSC_STEP@, region.text),
            )
        },
    }
}

/// The runs of the first `n` segments.
pub open spec fn runs_upto(
    seq: usize,
    command: Seq<char>,
    segments: Seq<Seq<char>>,
    regions: Seq<RegionModel>,
    stopped: bool,
    n: int,
) -> Seq<CheckRunModel>
    decreases n,
{
    if n <= 0 {
        Seq::empty()
    } else {
        runs_upto(seq, command, segments, regions, stopped, n - 1) + segment_runs(
            seq,
            command,
            segments[n - 1],
            regions[n - 1],
            stopped,
        )
    }
}

/// Which segment each of those runs came from.
pub open spec fn origins_upto(
    seq: usize,
    command: Seq<char>,
    segments: Seq<Seq<char>>,
    regions: Seq<RegionModel>,
    stopped: bool,
    n: int,
) -> Seq<usize>
    decreases n,
{
    if n <= 0 {
        Seq::empty()
    } else {
        origins_upto(seq, command, segments, regions, stopped, n - 1) + Seq::new(
            segment_runs(seq, command, segments[n - 1], regions[n - 1], stopped).len(),
            |i: int| (n - 1) as usize,
        )
    }
}

/// Record what became of one segment.
///
/// A JS build script usually runs the type checker on the way through, and says so:
/// "> tsc -b && vite build". A build that got past that line is also evidence the types are clean,
/// which is what an agent means by "tsc and the build pass".
pub fn record(
    seq: usize,
    kind: CheckKind,
    runner: String,
    segment: &str,
    reading: Reading,
    caveats: Vec<Caveat>,
    tsc_shown: bool,
) -> (r: Vec<CheckRun>)
    ensures
        r.deep_view() == runs_for(
            seq,
            kind,
            runner@,
            segment@,
            reading.deep_view(),
            caveats.deep_view(),
            tsc_shown,
        ),
{
    let mut out: Vec<CheckRun> = Vec::new();
    let ghost own = CheckRunModel {
        seq,
        kind,
        runner: runner@,
        command: segment@,
        outcome: reading.outcome,
        caveats: caveats.deep_view(),
        passed: reading.passed,
        failed: reading.failed,
        evidence_line: reading.evidence.deep_view(),
    };
    if kind == CheckKind::Build && reading.outcome == Outcome::Passed && tsc_shown {
        out.push(
            CheckRun {
                seq,
                kind: CheckKind::TypeCheck,
                runner: "tsc".to_owned(),
                command: segment.to_owned(),
                outcome: Outcome::Passed,
                caveats: copy_caveats(&caveats),
                passed: None,
                failed: Some(0),
                evidence_line: Some("the build ran `tsc` and completed".to_owned()),
            },
        );
    }
    let ghost before = out.deep_view();
    out.push(
        CheckRun {
            seq,
            kind,
            runner,
            command: segment.to_owned(),
            outcome: reading.outcome,
            caveats,
            passed: reading.passed,
            failed: reading.failed,
            evidence_line: reading.evidence,
        },
    );
    assert(out.deep_view() =~= before.push(own));
    assert(out.deep_view() =~= runs_for(
        seq,
        kind,
        own.runner,
        segment@,
        reading.deep_view(),
        own.caveats,
        tsc_shown,
    ));
    out
}

fn runs_of_segment(seq: usize, command: &str, segment: &str, region: &Region, stopped: bool) -> (r:
    Vec<CheckRun>)
    ensures
        r.deep_view() == segment_runs(seq, command@, segment@, region.deep_view(), stopped),
{
    match classify::classify(segment) {
        None => {
            let none: Vec<CheckRun> = Vec::new();
            assert(none.deep_view() =~= Seq::empty());
            none
        },
        Some((kind, runner)) => {
            let text = region.text.as_str();
            let scope_of_run = scope(
                kind,
                classify::caveats_for(segment, kind),
                classify::targets_specific_tests(segment),
                classify::reported_subset(text),
            );
            let parsed = outcome::parse_outcome(runner.as_str(), kind, text, region.exclusive);
            let reading = settle(parsed, stopped);
            let caveats = qualify(scope_of_run, &reading, classify::suppression_caveats(command));
            let tsc_step = Pattern::new(TSC_STEP);
            let tsc_shown = tsc_step.is_match(text);
            record(seq, kind, runner, segment, reading, caveats, tsc_shown)
        },
    }
}

// ---------------------------------------------------------------- what `&&` proves

/// The run shows that its segment was reached.
pub open spec fn shows_reached(run: CheckRunModel) -> bool {
    run.outcome == Outcome::Passed || run.outcome == Outcome::Failed
}

/// The furthest segment known to have produced something, among the first `n` runs.
pub open spec fn furthest(runs: Seq<CheckRunModel>, origin: Seq<usize>, n: int) -> Option<usize>
    decreases n,
{
    if n <= 0 {
        None
    } else {
        let before = furthest(runs, origin, n - 1);
        if shows_reached(runs[n - 1]) {
            match before {
                Some(m) if m >= origin[n - 1] => Some(m),
                _ => Some(origin[n - 1]),
            }
        } else {
            before
        }
    }
}

/// Every join from segment `from` up to segment `to` is `&&`.
pub open spec fn all_and_then(steps: Seq<(Seq<char>, Join)>, from: int, to: int) -> bool {
    forall|k: int| from <= k < to ==> (#[trigger] steps[k]).1 == Join::AndThen
}

/// A run whose success follows from a later one.
pub open spec fn proven_by_later(run: CheckRunModel) -> CheckRunModel {
    CheckRunModel {
        outcome: Outcome::Passed,
        failed: Some(0),
        evidence_line: Some(
            "a later step in the same `&&` chain ran, so `"@ + run.runner + "` exited cleanly"@,
        ),
        ..run
    }
}

/// A later segment that was reached proves that this run succeeded.
pub open spec fn is_proven(
    run: CheckRunModel,
    at: usize,
    reached: usize,
    steps: Seq<(Seq<char>, Join)>,
) -> bool {
    run.outcome == Outcome::Unknown && at < reached && all_and_then(
        steps,
        at as int,
        reached as int,
    )
}

/// The runs, with those settled that a later segment proves.
pub open spec fn inferred(
    runs: Seq<CheckRunModel>,
    origin: Seq<usize>,
    steps: Seq<(Seq<char>, Join)>,
    output: Seq<char>,
) -> Seq<CheckRunModel> {
    match furthest(runs, origin, runs.len() as int) {
        Some(reached) if text::trimmed(output).len() > 0 => Seq::new(
            runs.len(),
            |i: int|
                if is_proven(runs[i], origin[i], reached, steps) {
                    proven_by_later(runs[i])
                } else {
                    runs[i]
                },
        ),
        _ => runs,
    }
}

fn joins_all_and_then(steps: &Vec<(String, Join)>, from: usize, to: usize) -> (r: bool)
    requires
        from <= to <= steps@.len(),
    ensures
        r == all_and_then(steps.deep_view(), from as int, to as int),
{
    let ghost all = steps.deep_view();
    let mut k: usize = from;
    while k < to
        invariant
            from <= k <= to <= steps@.len(),
            all == steps.deep_view(),
            forall|j: int| from <= j < k ==> (#[trigger] all[j]).1 == Join::AndThen,
        decreases to - k,
    {
        assert(all[k as int].1 == steps@[k as int].1);
        if steps[k].1 != Join::AndThen {
            return false;
        }
        k = k + 1;
    }
    true
}

fn furthest_reached(runs: &Vec<CheckRun>, origin: &Vec<usize>) -> (r: Option<usize>)
    requires
        origin@.len() == runs@.len(),
    ensures
        r == furthest(runs.deep_view(), origin@, runs@.len() as int),
        r matches Some(m) ==> origin@.contains(m),
{
    let ghost rs = runs.deep_view();
    let mut reached: Option<usize> = None;
    for i in 0..runs.len()
        invariant
            rs == runs.deep_view(),
            origin@.len() == runs@.len(),
            reached == furthest(rs, origin@, i as int),
            reached matches Some(m) ==> origin@.contains(m),
    {
        assert(rs[i as int].outcome == runs@[i as int].outcome);
        let o = runs[i].outcome;
        if o == Outcome::Passed || o == Outcome::Failed {
            assert(origin@.contains(origin@[i as int]));
            reached = match reached {
                Some(m) if m >= origin[i] => Some(m),
                _ => Some(origin[i]),
            };
        }
    }
    reached
}

/// Resolve unreadable results using what `&&` guarantees.
///
/// `ruff check . && mypy src` only reaches mypy if ruff exited zero. So when a later command in
/// an `&&` chain demonstrably ran, every command before it in that chain succeeded, whatever
/// its own output did or did not say. This is the one place where a tool that printed nothing at
/// all leaves no doubt.
pub fn infer_from_short_circuit(
    runs: &mut Vec<CheckRun>,
    origin: &Vec<usize>,
    steps: &Vec<(String, Join)>,
    output: &str,
)
    requires
        origin@.len() == old(runs)@.len(),
        forall|i: int| 0 <= i < origin@.len() ==> #[trigger] origin@[i] < steps@.len(),
    ensures
        final(runs).deep_view() == inferred(
            old(runs).deep_view(),
            origin@,
            steps.deep_view(),
            output@,
        ),
{
    if text::is_blank(output) {
        return ;
    }
    let ghost rs = runs.deep_view();
    let ghost ss = steps.deep_view();
    let reached = match furthest_reached(runs, origin) {
        Some(m) => m,
        None => {
            return ;
        },
    };
    assert(reached < steps@.len());
    let total = runs.len();
    let mut i: usize = 0;
    while i < total
        invariant
            i <= total,
            total == runs@.len(),
            rs.len() == total,
            origin@.len() == total,
            ss == steps.deep_view(),
            reached < steps@.len(),
            forall|k: int| 0 <= k < origin@.len() ==> #[trigger] origin@[k] < steps@.len(),
            forall|k: int|
                0 <= k < i ==> (#[trigger] runs@[k]).deep_view() == (if is_proven(
                    rs[k],
                    origin@[k],
                    reached,
                    ss,
                ) {
                    proven_by_later(rs[k])
                } else {
                    rs[k]
                }),
            forall|k: int| i <= k < total ==> (#[trigger] runs@[k]).deep_view() == rs[k],
        decreases total - i,
    {
        let at = origin[i];
        assert(runs@[i as int].deep_view() == rs[i as int]);
        // Every join between this segment and the one that ran must be `&&` for the guarantee to
        // hold; a `;` or `||` in between breaks the chain of implication.
        if runs[i].outcome == Outcome::Unknown && at < reached && joins_all_and_then(
            steps,
            at,
            reached,
        ) {
            let why = text::concat3(
                "a later step in the same `&&` chain ran, so `",
                runs[i].runner.as_str(),
                "` exited cleanly",
            );
            let settled_run = CheckRun {
                seq: runs[i].seq,
                kind: runs[i].kind,
                runner: runs[i].runner.clone(),
                command: runs[i].command.clone(),
                outcome: Outcome::Passed,
                caveats: copy_caveats(&runs[i].caveats),
                passed: runs[i].passed,
                failed: Some(0),
                evidence_line: Some(why),
            };
            assert(settled_run.deep_view() == proven_by_later(rs[i as int]));
            runs.set(i, settled_run);
        }
        i = i + 1;
    }
    assert(runs.deep_view() =~= inferred(rs, origin@, ss, output@));
}

// ---------------------------------------------------------------- one Bash call

/// The runs of one Bash call, before anything is inferred.
pub open spec fn recorded(
    seq: usize,
    command: Seq<char>,
    output: Seq<char>,
    stopped: bool,
) -> Seq<CheckRunModel> {
    let segments = command::segments_of(command);
    runs_upto(
        seq,
        command,
        segments,
        command::regions_of(segments, output),
        stopped,
        segments.len() as int,
    )
}

/// Which segment each of those runs came from.
pub open spec fn recorded_origins(
    seq: usize,
    command: Seq<char>,
    output: Seq<char>,
    stopped: bool,
) -> Seq<usize> {
    let segments = command::segments_of(command);
    origins_upto(
        seq,
        command,
        segments,
        command::regions_of(segments, output),
        stopped,
        segments.len() as int,
    )
}

/// The check runs of one Bash call.
pub open spec fn analysed(
    seq: usize,
    command: Seq<char>,
    output: Seq<char>,
    stopped: bool,
) -> Seq<CheckRunModel> {
    inferred(
        recorded(seq, command, output, stopped),
        recorded_origins(seq, command, output, stopped),
        command::steps_of(command),
        output,
    )
}

/// Read the check runs out of one Bash call.
pub fn analyse(seq: usize, command: &str, output: &str, interrupted: bool, is_error: bool) -> (r:
    Vec<CheckRun>)
    ensures
        r.deep_view() == analysed(seq, command@, output@, interrupted || is_error),
{
    let stopped = interrupted || is_error;
    let steps = command::split_with_joins(command);
    let segments = command::segments(&steps);
    let regions = command::attribute_output(&segments, output);
    let mut runs: Vec<CheckRun> = Vec::new();
    // Which segment each run came from, so the `&&` inference below can find its neighbours.
    let mut origin: Vec<usize> = Vec::new();
    let ghost segs = segments.deep_view();
    let ghost regs = regions.deep_view();
    assert(runs.deep_view() =~= Seq::empty());
    assert(origin@ =~= Seq::empty());
    for i in 0..segments.len()
        invariant
            stopped == (interrupted || is_error),
            segs == segments.deep_view(),
            regs == regions.deep_view(),
            regs.len() == segs.len(),
            steps@.len() == segs.len(),
            runs.deep_view() == runs_upto(seq, command@, segs, regs, stopped, i as int),
            origin@ == origins_upto(seq, command@, segs, regs, stopped, i as int),
            origin@.len() == runs@.len(),
            forall|k: int| 0 <= k < origin@.len() ==> #[trigger] origin@[k] < i,
    {
        let ghost before = runs.deep_view();
        let ghost origin_before = origin@;
        assert(segs[i as int] == segments@[i as int]@);
        assert(regs[i as int] == regions@[i as int].deep_view());
        let mut found = runs_of_segment(
            seq,
            command,
            segments[i].as_str(),
            &regions[i],
            stopped,
        );
        let ghost new_runs = found.deep_view();
        for k in 0..found.len()
            invariant
                origin@ == origin_before + Seq::new(k as nat, |j: int| i),
        {
            origin.push(i);
            assert(origin@ =~= origin_before + Seq::new((k + 1) as nat, |j: int| i));
        }
        runs.append(&mut found);
        assert(runs.deep_view() =~= before + new_runs);
        assert(origin@ =~= origins_upto(seq, command@, segs, regs, stopped, i + 1));
    }
    infer_from_short_circuit(&mut runs, &origin, &steps, output);
    runs
}

// ---------------------------------------------------------------- laws

/// What `&&` proves only ever settles a run whose outcome was unknown, and settles it as passed:
/// every other run is left as it was.
pub proof fn law_inference_settles_only_unknown_runs(
    runs: Seq<CheckRunModel>,
    origin: Seq<usize>,
    steps: Seq<(Seq<char>, Join)>,
    output: Seq<char>,
    i: int,
)
    requires
        origin.len() == runs.len(),
        0 <= i < runs.len(),
    ensures
        inferred(runs, origin, steps, output).len() == runs.len(),
        inferred(runs, origin, steps, output)[i] == runs[i] || (runs[i].outcome == Outcome::Unknown
            && inferred(runs, origin, steps, output)[i] == proven_by_later(runs[i])),
{
}

proof fn lemma_furthest(runs: Seq<CheckRunModel>, origin: Seq<usize>, n: int)
    requires
        origin.len() == runs.len(),
        0 <= n <= runs.len(),
    ensures
        match furthest(runs, origin, n) {
            Some(m) => (exists|k: int|
                0 <= k < n && shows_reached(#[trigger] runs[k]) && origin[k] == m) && (forall|k: int|
                0 <= k < n && shows_reached(#[trigger] runs[k]) ==> origin[k] <= m),
            None => forall|k: int| 0 <= k < n ==> !shows_reached(#[trigger] runs[k]),
        },
    decreases n,
{
    if n > 0 {
        lemma_furthest(runs, origin, n - 1);
        match furthest(runs, origin, n) {
            Some(m) => {
                if shows_reached(runs[n - 1]) && origin[n - 1] == m {
                    assert(shows_reached(runs[n - 1]) && origin[n - 1] == m);
                } else {
                    let k = choose|k: int|
                        0 <= k < n - 1 && shows_reached(#[trigger] runs[k]) && origin[k] == m;
                    assert(shows_reached(runs[k]) && origin[k] == m);
                }
            },
            None => {},
        }
    }
}

/// A run is settled by what `&&` proves exactly when something was printed, its outcome was
/// unknown, and the furthest run that reported a result comes from a later step that only `&&`
/// joins lead to. A `;` or `||` in between proves nothing.
pub proof fn law_inference_needs_an_unbroken_chain(
    runs: Seq<CheckRunModel>,
    origin: Seq<usize>,
    steps: Seq<(Seq<char>, Join)>,
    output: Seq<char>,
    i: int,
)
    requires
        origin.len() == runs.len(),
        0 <= i < runs.len(),
        runs[i].outcome == Outcome::Unknown,
    ensures
        inferred(runs, origin, steps, output)[i].outcome == Outcome::Passed <==> text::trimmed(
            output,
        ).len() > 0 && exists|k: int|
            0 <= k < runs.len() && shows_reached(#[trigger] runs[k]) && (forall|j: int|
                0 <= j < runs.len() && shows_reached(#[trigger] runs[j]) ==> origin[j]
                    <= origin[k]) && origin[i] < origin[k] && all_and_then(
                steps,
                origin[i] as int,
                origin[k] as int,
            ),
{
    lemma_furthest(runs, origin, runs.len() as int);
    match furthest(runs, origin, runs.len() as int) {
        Some(m) => {
            let w = choose|k: int|
                0 <= k < runs.len() && shows_reached(#[trigger] runs[k]) && origin[k] == m;
            if inferred(runs, origin, steps, output)[i].outcome == Outcome::Passed {
                assert(shows_reached(runs[w]) && origin[i] < origin[w]);
            }
        },
        None => {},
    }
}

/// Caveats about scope are never dropped.
pub proof fn law_subset_caveats_stay(
    scope: Seq<CaveatModel>,
    reading: ReadingModel,
    hiding: Seq<CaveatModel>,
)
    requires
        has_subset(scope),
    ensures
        has_subset(qualified(scope, reading, hiding)),
{
    let w = choose|i: int| 0 <= i < scope.len() && (#[trigger] scope[i]) is SubsetOnly;
    let counted = if collected_nothing(reading) {
        scope.push(CaveatModel::NoTestsRan)
    } else {
        scope
    };
    assert(counted[w] == scope[w]);
    let f = unless(about_filtering());
    let g = unless(about_stopping());
    let visible = if reading.evidence is None {
        counted + hiding
    } else {
        without_filtering(counted)
    };
    assert(visible.contains(scope[w])) by {
        if reading.evidence is None {
            assert((counted + hiding)[w] == scope[w]);
        } else {
            assert(f(counted[w]) == Some(scope[w]));
            lists::lemma_selected_keeps(counted, f, w);
        }
    }
    let v = choose|v: int| 0 <= v < visible.len() && visible[v] == scope[w];
    if reading.outcome == Outcome::Passed {
        assert(g(visible[v]) == Some(scope[w]));
        lists::lemma_selected_keeps(visible, g, v);
        let u = choose|u: int|
            0 <= u < without_stopping(visible).len() && without_stopping(visible)[u] == scope[w];
        assert(qualified(scope, reading, hiding)[u] is SubsetOnly);
    } else {
        assert(qualified(scope, reading, hiding)[v] is SubsetOnly);
    }
}

/// A run of a subset is never a clean pass, whatever it printed.
pub proof fn law_subset_is_never_clean(
    seq: usize,
    kind: CheckKind,
    runner: Seq<char>,
    segment: Seq<char>,
    reading: ReadingModel,
    scope: Seq<CaveatModel>,
    hiding: Seq<CaveatModel>,
    tsc_shown: bool,
    i: int,
)
    requires
        has_subset(scope),
        0 <= i < runs_for(
            seq,
            kind,
            runner,
            segment,
            reading,
            qualified(scope, reading, hiding),
            tsc_shown,
        ).len(),
    ensures
        !clean_pass(
            runs_for(
                seq,
                kind,
                runner,
                segment,
                reading,
                qualified(scope, reading, hiding),
                tsc_shown,
            )[i],
        ),
{
    law_subset_caveats_stay(scope, reading, hiding);
    let q = qualified(scope, reading, hiding);
    let k = choose|k: int| 0 <= k < q.len() && (#[trigger] q[k]) is SubsetOnly;
    assert(q.len() > 0);
}

/// Once a runner printed a line that settles its result, what could have hidden it does not
/// qualify the run: no caveat about filtering is left, and the command line's ways of hiding a
/// failure make no difference.
pub proof fn law_a_summary_makes_hiding_moot(
    scope: Seq<CaveatModel>,
    reading: ReadingModel,
    hiding: Seq<CaveatModel>,
    other: Seq<CaveatModel>,
)
    requires
        reading.evidence is Some,
    ensures
        qualified(scope, reading, hiding) == qualified(scope, reading, other),
        forall|i: int|
            0 <= i < qualified(scope, reading, hiding).len() ==> !((#[trigger] qualified(
                scope,
                reading,
                hiding,
            )[i]) is OutputFiltered),
{
    let counted = if collected_nothing(reading) {
        scope.push(CaveatModel::NoTestsRan)
    } else {
        scope
    };
    let f = unless(about_filtering());
    let g = unless(about_stopping());
    let visible = without_filtering(counted);
    lists::lemma_selected_from(counted, f);
    lists::lemma_selected_from(visible, g);
    let q = qualified(scope, reading, hiding);
    assert forall|i: int| 0 <= i < q.len() implies !((#[trigger] q[i]) is OutputFiltered) by {
        if reading.outcome == Outcome::Passed {
            let k = choose|k: int| 0 <= k < visible.len() && g(#[trigger] visible[k]) == Some(q[i]);
            let m = choose|m: int|
                0 <= m < counted.len() && f(#[trigger] counted[m]) == Some(visible[k]);
            assert(visible[k] == q[i]);
            assert(counted[m] == visible[k]);
        } else {
            let m = choose|m: int| 0 <= m < counted.len() && f(#[trigger] counted[m]) == Some(q[i]);
            assert(counted[m] == q[i]);
        }
    }
}

/// A run that passed was never cut short: the flags that stop a run at its first failure do not
/// qualify it.
pub proof fn law_stopping_early_is_moot_on_a_pass(
    scope: Seq<CaveatModel>,
    reading: ReadingModel,
    hiding: Seq<CaveatModel>,
)
    requires
        reading.outcome == Outcome::Passed,
    ensures
        forall|i: int|
            0 <= i < qualified(scope, reading, hiding).len() ==> !((#[trigger] qualified(
                scope,
                reading,
                hiding,
            )[i]) is StopsEarly),
{
    let g = unless(about_stopping());
    let visible = if reading.evidence is None {
        scope + hiding
    } else {
        without_filtering(scope)
    };
    lists::lemma_selected_from(visible, g);
    let q = qualified(scope, reading, hiding);
    assert forall|i: int| 0 <= i < q.len() implies !((#[trigger] q[i]) is StopsEarly) by {
        let k = choose|k: int| 0 <= k < visible.len() && g(#[trigger] visible[k]) == Some(q[i]);
        assert(visible[k] == q[i]);
    }
}

/// An error flag never erases a result that was read: only an unknown outcome becomes "did not
/// complete".
pub proof fn law_an_error_flag_keeps_results(parsed: ReadingModel, stopped: bool)
    ensures
        parsed.outcome != Outcome::Unknown ==> settled(parsed, stopped) == parsed,
        settled(parsed, stopped).outcome == Outcome::Unknown ==> !stopped,
{
}

proof fn lemma_runs_carry_seq(
    seq: usize,
    command: Seq<char>,
    segments: Seq<Seq<char>>,
    regions: Seq<RegionModel>,
    stopped: bool,
    n: int,
)
    ensures
        forall|i: int|
            0 <= i < runs_upto(seq, command, segments, regions, stopped, n).len() ==> (
            #[trigger] runs_upto(seq, command, segments, regions, stopped, n)[i]).seq == seq,
        origins_upto(seq, command, segments, regions, stopped, n).len() == runs_upto(
            seq,
            command,
            segments,
            regions,
            stopped,
            n,
        ).len(),
    decreases n,
{
    if n > 0 {
        lemma_runs_carry_seq(seq, command, segments, regions, stopped, n - 1);
    }
}

/// Every run of a call carries the call's position in the transcript.
pub proof fn law_runs_carry_their_position(
    seq: usize,
    command: Seq<char>,
    output: Seq<char>,
    stopped: bool,
    i: int,
)
    requires
        0 <= i < analysed(seq, command, output, stopped).len(),
    ensures
        analysed(seq, command, output, stopped)[i].seq == seq,
{
    let segments = command::segments_of(command);
    lemma_runs_carry_seq(
        seq,
        command,
        segments,
        command::regions_of(segments, output),
        stopped,
        segments.len() as int,
    );
    let rs = recorded(seq, command, output, stopped);
    assert(rs[i].seq == seq);
}

/// What the kinds of checks are called, and what is said of each qualification.
pub proof fn law_how_checks_and_caveats_are_worded(w: Seq<char>)
    ensures
        kind_label(CheckKind::Test) == "test"@,
        kind_label(CheckKind::TypeCheck) == "type check"@,
        kind_label(CheckKind::Lint) == "lint"@,
        kind_label(CheckKind::Build) == "build"@,
        described(CaveatModel::SubsetOnly(w)) == "only a subset of tests ran ("@ + w + ")"@,
        described(CaveatModel::StopsEarly(w)) == "run stops at first failure ("@ + w + ")"@,
        described(CaveatModel::FailureSuppressed(w)) == "a non-zero exit would be hidden by `"@ + w
            + "`"@,
        described(CaveatModel::OutputFiltered(w)) == "output was filtered through `"@ + w + "`"@,
        described(CaveatModel::NoTestsRan) == "the runner collected no tests"@,
{
}

/// What a pass has to be to be clean.
pub proof fn law_a_clean_pass_has_no_caveats(run: CheckRunModel)
    ensures
        clean_pass(run) <==> run.outcome == Outcome::Passed && run.caveats.len() == 0,
{
}

/// What the list without the caveats of a sort holds.
proof fn lemma_without(cs: Seq<CaveatModel>, p: spec_fn(CaveatModel) -> bool, c: CaveatModel)
    ensures
        lists::selected(cs, unless(p)).contains(c) <==> cs.contains(c) && !p(c),
{
    lists::lemma_selected_such(cs, unless(p), |c: CaveatModel| !p(c));
}

/// What qualifies a run. Its scope always does, but for what passing makes moot; a pipe or a
/// command line that could hide the result does only where no line shows the result; and a run that
/// failed without a test that passed or failed collected none.
pub proof fn law_what_qualifies_a_run(
    scope: Seq<CaveatModel>,
    reading: ReadingModel,
    hiding: Seq<CaveatModel>,
    c: CaveatModel,
)
    ensures
        ({
            let none_ran = reading.outcome == Outcome::Failed && reading.passed == Some(0u32) && (
            reading.failed is None || reading.failed == Some(0u32));
            let own = scope.contains(c) || none_ran && c == CaveatModel::NoTestsRan;
            qualified(scope, reading, hiding).contains(c) <==> {
                &&& if reading.evidence is None {
                    own || hiding.contains(c)
                } else {
                    own && !(c is OutputFiltered)
                }
                &&& !(reading.outcome == Outcome::Passed && c is StopsEarly)
            }
        }),
{
    let counted = if collected_nothing(reading) {
        scope.push(CaveatModel::NoTestsRan)
    } else {
        scope
    };
    let own = scope.contains(c) || collected_nothing(reading) && c == CaveatModel::NoTestsRan;
    assert(counted.contains(c) <==> own) by {
        if scope.contains(c) {
            let i = choose|i: int| 0 <= i < scope.len() && scope[i] == c;
            assert(counted[i] == c);
        }
        if collected_nothing(reading) && c == CaveatModel::NoTestsRan {
            assert(counted[scope.len() as int] == c);
        }
        if counted.contains(c) {
            let i = choose|i: int| 0 <= i < counted.len() && counted[i] == c;
            if i < scope.len() {
                assert(scope[i] == c);
            }
        }
    }
    let visible = if reading.evidence is None {
        counted + hiding
    } else {
        without_filtering(counted)
    };
    if reading.evidence is None {
        if counted.contains(c) {
            let i = choose|i: int| 0 <= i < counted.len() && counted[i] == c;
            assert(visible[i] == c);
        }
        if hiding.contains(c) {
            let i = choose|i: int| 0 <= i < hiding.len() && hiding[i] == c;
            assert(visible[counted.len() + i] == c);
        }
        if visible.contains(c) {
            let i = choose|i: int| 0 <= i < visible.len() && visible[i] == c;
            if i < counted.len() {
                assert(counted[i] == c);
            } else {
                assert(hiding[i - counted.len()] == c);
            }
        }
    } else {
        lemma_without(counted, about_filtering(), c);
    }
    lemma_without(visible, about_stopping(), c);
}

/// What the scope of a run holds: what its flags say, and of a test run besides, where no flag
/// narrows it, the test file that it names, or failing that the tests that its output says were
/// left out.
pub proof fn law_what_the_scope_of_a_run_is(
    kind: CheckKind,
    flags: Seq<CaveatModel>,
    named: Option<CaveatModel>,
    left_out: Option<CaveatModel>,
    c: CaveatModel,
)
    requires
        named is Some ==> named->0 is SubsetOnly,
    ensures
        ({
            let narrowed = exists|i: int| 0 <= i < flags.len() && (#[trigger] flags[i])
                is SubsetOnly;
            scope_caveats(kind, flags, named, left_out).contains(c) <==> flags.contains(c) || kind
                == CheckKind::Test && !narrowed && (named == Some(c) || named is None && left_out
                == Some(c))
        }),
{
    let a = with_subset(flags, named);
    assert forall|x: CaveatModel, s: Seq<CaveatModel>| #[trigger] s.push(x).contains(c) <==> s.contains(
        c,
    ) || x == c by {
        if s.contains(c) {
            let i = choose|i: int| 0 <= i < s.len() && s[i] == c;
            assert(s.push(x)[i] == c);
        }
        if x == c {
            assert(s.push(x)[s.len() as int] == c);
        }
        if s.push(x).contains(c) {
            let i = choose|i: int| 0 <= i < s.push(x).len() && s.push(x)[i] == c;
            if i < s.len() {
                assert(s[i] == c);
            }
        }
    }
    if named is Some && !has_subset(flags) {
        assert(a[flags.len() as int] is SubsetOnly);
    }
}

/// What a step of a command records. A step that is no check records nothing. A check records one
/// run, with what its own stretch of the output says; where nothing can be told from that and the
/// call was stopped, the run did not complete. A build that passed and shows that it ran `tsc`
/// records a type check too, before it.
pub proof fn law_what_a_step_records(
    seq: usize,
    command: Seq<char>,
    segment: Seq<char>,
    region: RegionModel,
    stopped: bool,
)
    ensures
        ({
            let runs = segment_runs(seq, command, segment, region, stopped);
            match classify::classified(segment) {
                None => runs.len() == 0,
                Some((kind, runner)) => {
                    let said = outcome::outcome_of(runner, kind, region.text, region.exclusive);
                    let cut = said.outcome == Outcome::Unknown && stopped;
                    let typed = kind == CheckKind::Build && said.outcome == Outcome::Passed
                        && pattern::regex_is_match(r"(?m)^\s*>\s*[^\n]*\btsc\b"@, region.text);
                    &&& runs.len() == (if typed {
                        2int
                    } else {
                        1int
                    })
                    &&& ({
                        let run = runs[runs.len() - 1];
                        &&& run.seq == seq
                        &&& run.kind == kind
                        &&& run.runner == runner
                        &&& run.command == segment
                        &&& run.outcome == (if cut {
                            Outcome::DidNotComplete
                        } else {
                            said.outcome
                        })
                        &&& run.passed == (if cut {
                            None
                        } else {
                            said.passed
                        })
                        &&& run.failed == (if cut {
                            None
                        } else {
                            said.failed
                        })
                        &&& run.evidence_line == (if cut {
                            None
                        } else {
                            said.evidence
                        })
                        &&& run.caveats == qualified(
                            scope_caveats(
                                kind,
                                classify::flag_caveats(segment, kind),
                                classify::named_subset(
                                    segment,
                                    pattern::regex_captures(classify::TEST_FILE@, segment),
                                ),
                                classify::left_out(
                                    pattern::regex_captures(classify::FILTERED@, region.text),
                                ),
                            ),
                            ReadingModel {
                                outcome: run.outcome,
                                passed: run.passed,
                                failed: run.failed,
                                evidence: run.evidence_line,
                            },
                            classify::suppressions(command),
                        )
                        &&& typed ==> runs[0] == (CheckRunModel {
                            seq,
                            kind: CheckKind::TypeCheck,
                            runner: "tsc"@,
                            command: segment,
                            outcome: Outcome::Passed,
                            caveats: run.caveats,
                            passed: None,
                            failed: Some(0),
                            evidence_line: Some("the build ran `tsc` and completed"@),
                        })
                    })
                },
            }
        }),
{
}

/// Where the runs of the first `n` steps come from.
proof fn lemma_origins(
    seq: usize,
    command: Seq<char>,
    segments: Seq<Seq<char>>,
    regions: Seq<RegionModel>,
    stopped: bool,
    n: int,
)
    requires
        0 <= n <= segments.len(),
        segments.len() <= usize::MAX,
    ensures
        ({
            let runs = runs_upto(seq, command, segments, regions, stopped, n);
            let origins = origins_upto(seq, command, segments, regions, stopped, n);
            &&& origins.len() == runs.len()
            &&& forall|i: int|
                0 <= i < runs.len() ==> 0 <= #[trigger] origins[i] < n && segment_runs(
                    seq,
                    command,
                    segments[origins[i] as int],
                    regions[origins[i] as int],
                    stopped,
                ).contains(runs[i])
            &&& forall|i: int, j: int|
                0 <= i < j < runs.len() ==> #[trigger] origins[i] <= #[trigger] origins[j]
            &&& forall|k: int, r: CheckRunModel|
                0 <= k < n && #[trigger] segment_runs(
                    seq,
                    command,
                    segments[k],
                    regions[k],
                    stopped,
                ).contains(r) ==> runs.contains(r)
        }),
    decreases n,
{
    if n > 0 {
        lemma_origins(seq, command, segments, regions, stopped, n - 1);
        let front = runs_upto(seq, command, segments, regions, stopped, n - 1);
        let back = segment_runs(seq, command, segments[n - 1], regions[n - 1], stopped);
        let runs = runs_upto(seq, command, segments, regions, stopped, n);
        let before = origins_upto(seq, command, segments, regions, stopped, n - 1);
        let origins = origins_upto(seq, command, segments, regions, stopped, n);
        assert forall|i: int| 0 <= i < runs.len() implies 0 <= #[trigger] origins[i] < n
            && segment_runs(
            seq,
            command,
            segments[origins[i] as int],
            regions[origins[i] as int],
            stopped,
        ).contains(runs[i]) by {
            if i < front.len() {
                assert(origins[i] == before[i]);
                assert(runs[i] == front[i]);
            } else {
                assert(origins[i] == n - 1);
                assert(runs[i] == back[i - front.len()]);
            }
        }
        assert forall|i: int, j: int| 0 <= i < j < runs.len() implies #[trigger] origins[i]
            <= #[trigger] origins[j] by {
            if j < front.len() {
                assert(before[i] <= before[j]);
            } else if i < front.len() {
                assert(origins[i] == before[i]);
                assert(before[i] < n - 1);
            }
        }
        assert forall|k: int, r: CheckRunModel|
            0 <= k < n && #[trigger] segment_runs(
                seq,
                command,
                segments[k],
                regions[k],
                stopped,
            ).contains(r) implies runs.contains(r) by {
            if k < n - 1 {
                assert(front.contains(r));
                let i = choose|i: int| 0 <= i < front.len() && front[i] == r;
                assert(runs[i] == r);
            } else {
                let i = choose|i: int| 0 <= i < back.len() && back[i] == r;
                assert(runs[front.len() + i] == r);
            }
        }
    }
}

/// The runs of a command are those of its steps, in the order of the steps, each read from the
/// stretch of the output that is its step's.
pub proof fn law_runs_follow_the_steps(
    seq: usize,
    command: Seq<char>,
    output: Seq<char>,
    stopped: bool,
)
    requires
        command::segments_of(command).len() <= usize::MAX,
    ensures
        ({
            let segments = command::segments_of(command);
            let regions = command::regions_of(segments, output);
            let runs = recorded(seq, command, output, stopped);
            let origins = recorded_origins(seq, command, output, stopped);
            &&& origins.len() == runs.len()
            &&& forall|i: int|
                0 <= i < runs.len() ==> 0 <= #[trigger] origins[i] < segments.len() && segment_runs(
                    seq,
                    command,
                    segments[origins[i] as int],
                    regions[origins[i] as int],
                    stopped,
                ).contains(runs[i])
            &&& forall|i: int, j: int|
                0 <= i < j < runs.len() ==> #[trigger] origins[i] <= #[trigger] origins[j]
            &&& forall|k: int, r: CheckRunModel|
                0 <= k < segments.len() && #[trigger] segment_runs(
                    seq,
                    command,
                    segments[k],
                    regions[k],
                    stopped,
                ).contains(r) ==> runs.contains(r)
        }),
{
    let segments = command::segments_of(command);
    lemma_origins(
        seq,
        command,
        segments,
        command::regions_of(segments, output),
        stopped,
        segments.len() as int,
    );
}

/// What a later step proves of an earlier one. A run that could not be read passed where something
/// was printed and the furthest step with a run that passed or failed comes later, with nothing but
/// `&&` from the one to the other. Every other run stays as it was read.
pub proof fn law_what_a_later_step_proves(
    runs: Seq<CheckRunModel>,
    origin: Seq<usize>,
    steps: Seq<(Seq<char>, Join)>,
    output: Seq<char>,
    i: int,
    far: int,
)
    requires
        origin.len() == runs.len(),
        0 <= i < runs.len(),
        0 <= far < runs.len(),
        runs[far].outcome == Outcome::Passed || runs[far].outcome == Outcome::Failed,
        forall|j: int|
            0 <= j < runs.len() && ((#[trigger] runs[j]).outcome == Outcome::Passed
                || runs[j].outcome == Outcome::Failed) ==> origin[j] <= origin[far],
    ensures
        ({
            let out = inferred(runs, origin, steps, output);
            let proven = runs[i].outcome == Outcome::Unknown && text::trimmed(output).len() > 0
                && origin[i] < origin[far] && (forall|k: int|
                origin[i] <= k < origin[far] ==> (#[trigger] steps[k]).1 == Join::AndThen);
            &&& out.len() == runs.len()
            &&& proven ==> out[i] == (CheckRunModel {
                seq: runs[i].seq,
                kind: runs[i].kind,
                runner: runs[i].runner,
                command: runs[i].command,
                outcome: Outcome::Passed,
                caveats: runs[i].caveats,
                passed: runs[i].passed,
                failed: Some(0),
                evidence_line: Some(
                    "a later step in the same `&&` chain ran, so `"@ + runs[i].runner
                        + "` exited cleanly"@,
                ),
            })
            &&& !proven ==> out[i] == runs[i]
        }),
{
    lemma_furthest(runs, origin, runs.len() as int);
    assert(shows_reached(runs[far]));
    let m = furthest(runs, origin, runs.len() as int)->0;
    let w = choose|k: int|
        0 <= k < runs.len() && shows_reached(#[trigger] runs[k]) && origin[k] == m;
    assert(origin[w] <= origin[far]);
}

/// Where no run passed or failed, nothing is proven of any.
pub proof fn law_nothing_is_proven_without_a_result(
    runs: Seq<CheckRunModel>,
    origin: Seq<usize>,
    steps: Seq<(Seq<char>, Join)>,
    output: Seq<char>,
)
    requires
        origin.len() == runs.len(),
        forall|j: int|
            0 <= j < runs.len() ==> (#[trigger] runs[j]).outcome != Outcome::Passed
                && runs[j].outcome != Outcome::Failed,
    ensures
        inferred(runs, origin, steps, output) == runs,
{
    lemma_furthest(runs, origin, runs.len() as int);
}

/// What is reported of a command is what its steps recorded, with what later steps prove.
pub proof fn law_a_command_is_read_step_by_step(
    seq: usize,
    command: Seq<char>,
    output: Seq<char>,
    stopped: bool,
)
    ensures
        analysed(seq, command, output, stopped) == inferred(
            recorded(seq, command, output, stopped),
            recorded_origins(seq, command, output, stopped),
            command::steps_of(command),
            output,
        ),
        analysed(seq, command, output, stopped).len() == recorded(
            seq,
            command,
            output,
            stopped,
        ).len(),
{
}

} // verus!
