//! backcheck verifies what a coding agent actually did.
//!
//! An agent's session transcript records both what it *said* and what it *ran*. backcheck reads
//! the two independently: [`claims`] extracts checkable statements from the prose, [`evidence`]
//! builds a ledger of what the tool calls prove, and [`verify`] holds one against the other.
//! [`tamper`] separately looks for tests that were weakened rather than fixed.
//!
//! Nothing here calls a model. Every verdict is derived from recorded output, so runs are fast,
//! free, deterministic, and reproducible.

use vstd::prelude::*;

use crate::claims::ClaimKind;
use crate::evidence::Ledger;
use crate::report::{Report, ReportModel};
use crate::runners::{CheckKind, CheckRunModel};
use crate::transcript::{Transcript, TranscriptModel};
use crate::verify::{Lookups, Options, OptionsModel, Verdict};

pub mod claims;
pub mod evidence;
pub mod hook;
pub mod json;
pub mod lists;
pub mod pattern;
pub mod report;
pub mod runners;
pub mod session;
pub mod tamper;
pub mod text;
pub mod transcript;
pub mod verify;

verus! {

/// The options, with the session's own directory where none was given.
pub open spec fn options_for(t: TranscriptModel, opts: OptionsModel) -> OptionsModel {
    OptionsModel {
        cwd: match opts.cwd {
            Some(d) => Some(d),
            None => t.cwd,
        },
        ..opts
    }
}

/// What a session comes to.
pub open spec fn report_of(t: TranscriptModel, source: Seq<char>, opts: OptionsModel) -> ReportModel {
    let ledger = evidence::ledger_of(t.tool_calls);
    ReportModel {
        session_id: t.session_id,
        transcript: source,
        checked: verify::verified(
            claims::claims_of(t.assistant_texts),
            ledger,
            options_for(t, opts),
        ),
        findings: tamper::findings_of(t, ledger),
        runs_seen: ledger.checks.len() as usize,
        seen: ledger.checks.map_values(|c: CheckRunModel| report::seen_of(c)),
        unrecognised: evidence::unrecognised_in(t.tool_calls),
    }
}

fn with_directory(transcript: &Transcript, opts: &Options) -> (r: Options)
    ensures
        r.deep_view() == options_for(transcript.deep_view(), opts.deep_view()),
{
    let mut r = opts.clone();
    if r.cwd.is_none() {
        r.cwd = text::copied(&transcript.cwd);
    }
    r
}

/// Run the full analysis over an already-parsed transcript.
pub fn analyse(transcript: &Transcript, source: String, opts: &Options) -> (r: Report)
    ensures
        r.deep_view() == report_of(transcript.deep_view(), source@, opts.deep_view()),
{
    let ledger = Ledger::build(transcript);
    let found = claims::extract(transcript);
    let opts = with_directory(transcript, opts);
    let session_id = text::copied(&transcript.session_id);
    let runs_seen = ledger.checks.len();
    assert(ledger.deep_view().checks.len() == runs_seen);
    Report {
        session_id,
        transcript: source,
        checked: verify::verify(&found, &ledger, &opts),
        findings: tamper::scan(transcript, &ledger),
        runs_seen,
        seen: report::seen_runs(&ledger),
        unrecognised: evidence::unrecognised(transcript),
    }
}

/// Run the full analysis over the text of one transcript file, `source` being its path.
pub fn analyse_transcript(raw: &str, source: String, opts: &Options) -> (r: Report)
    ensures
        r.deep_view() == report_of(
            transcript::session_of(transcript::records_in(raw@)),
            source@,
            opts.deep_view(),
        ),
{
    let parsed = Transcript::parse_str(raw);
    analyse(&parsed, source, opts)
}

/// Say what the analysis of a session would look for in the working tree.
pub fn lookups(transcript: &Transcript, opts: &Options) -> (r: Lookups)
    ensures
        r.tree == verify::tree_asked(
            claims::claims_of(transcript.deep_view().assistant_texts),
            evidence::ledger_of(transcript.deep_view().tool_calls),
            options_for(transcript.deep_view(), opts.deep_view()),
        ),
        r.files.deep_view() == verify::files_asked(
            claims::claims_of(transcript.deep_view().assistant_texts),
            evidence::ledger_of(transcript.deep_view().tool_calls),
            options_for(transcript.deep_view(), opts.deep_view()),
        ),
{
    let ledger = Ledger::build(transcript);
    let found = claims::extract(transcript);
    let opts = with_directory(transcript, opts);
    verify::live_lookups(&found, &ledger, &opts)
}

// ---------------------------------------------------------------- laws

/// Nothing that the agent said reaches the evidence: sessions with the same calls have the same
/// ledger, whatever the prose in them.
pub proof fn law_prose_does_not_reach_the_evidence(
    a: TranscriptModel,
    b: TranscriptModel,
    source: Seq<char>,
    opts: OptionsModel,
)
    requires
        a.tool_calls == b.tool_calls,
    ensures
        evidence::ledger_of(a.tool_calls) == evidence::ledger_of(b.tool_calls),
        report_of(a, source, opts).seen == report_of(b, source, opts).seen,
        report_of(a, source, opts).runs_seen == report_of(b, source, opts).runs_seen,
        report_of(a, source, opts).unrecognised == report_of(b, source, opts).unrecognised,
{
}

/// Nothing that was recorded of a call reaches the claims: sessions with the same prose make the
/// same claims, whatever ran in them.
pub proof fn law_results_do_not_reach_the_claims(
    a: TranscriptModel,
    b: TranscriptModel,
    source: Seq<char>,
    opts: OptionsModel,
    i: int,
)
    requires
        a.assistant_texts == b.assistant_texts,
        0 <= i < report_of(a, source, opts).checked.len(),
    ensures
        report_of(a, source, opts).checked.len() == report_of(b, source, opts).checked.len(),
        report_of(a, source, opts).checked[i].claim == report_of(b, source, opts).checked[i].claim,
{
    verify::law_every_claim_is_checked(
        claims::claims_of(a.assistant_texts),
        evidence::ledger_of(a.tool_calls),
        options_for(a, opts),
    );
    verify::law_every_claim_is_checked(
        claims::claims_of(b.assistant_texts),
        evidence::ledger_of(b.tool_calls),
        options_for(b, opts),
    );
}

/// A session in which nothing was run supports no claim that checks pass.
pub proof fn law_nothing_run_supports_nothing(
    t: TranscriptModel,
    source: Seq<char>,
    opts: OptionsModel,
    i: int,
)
    requires
        t.tool_calls.len() == 0,
        0 <= i < report_of(t, source, opts).checked.len(),
        ({
            let kind = report_of(t, source, opts).checked[i].claim.kind;
            kind == ClaimKind::TestsPass || kind == ClaimKind::ChecksPass || kind
                == ClaimKind::TypeCheckPasses || kind == ClaimKind::LintPasses || kind
                == ClaimKind::BuildPasses
        }),
    ensures
        report_of(t, source, opts).checked[i].verdict == Verdict::Unsupported,
        report::is_troubled(report_of(t, source, opts)),
{
    let ledger = evidence::ledger_of(t.tool_calls);
    let all = claims::claims_of(t.assistant_texts);
    verify::law_every_claim_is_checked(all, ledger, options_for(t, opts));
    let claim = all[i];
    assert(ledger.checks.len() == 0);
    verify::law_unsupported_means_no_finished_run(claim, ledger, CheckKind::Test);
    verify::law_unsupported_means_no_finished_run(claim, ledger, CheckKind::TypeCheck);
    verify::law_unsupported_means_no_finished_run(claim, ledger, CheckKind::Lint);
    verify::law_unsupported_means_no_finished_run(claim, ledger, CheckKind::Build);
    verify::law_a_blanket_claim_needs_a_run(claim, ledger);
    report::law_trouble_is_a_problem_or_a_warning(report_of(t, source, opts));
    assert(verify::is_trouble(report_of(t, source, opts).checked[i].verdict));
}

/// What a report is made of: a verdict on every claim of the prose, from the evidence of the calls
/// alone; the signs of tampering; and every check that was seen. Live checks look in the directory
/// that was asked for, or failing that in the session's own.
pub proof fn law_what_a_report_is_made_of(
    t: TranscriptModel,
    source: Seq<char>,
    opts: OptionsModel,
    i: int,
)
    ensures
        ({
            let r = report_of(t, source, opts);
            let ledger = evidence::ledger_of(t.tool_calls);
            let said = claims::claims_of(t.assistant_texts);
            let live = OptionsModel {
                live: opts.live,
                cwd: if opts.cwd is Some {
                    opts.cwd
                } else {
                    t.cwd
                },
                tree_dirty: opts.tree_dirty,
                existing: opts.existing,
            };
            &&& r.session_id == t.session_id
            &&& r.transcript == source
            &&& r.checked.len() == said.len()
            &&& 0 <= i < said.len() ==> r.checked[i] == verify::checked(said[i], ledger, live)
            &&& r.findings == tamper::findings_of(t, ledger)
            &&& ledger.checks.len() <= usize::MAX ==> r.runs_seen == ledger.checks.len()
            &&& r.seen.len() == ledger.checks.len()
            &&& 0 <= i < ledger.checks.len() ==> r.seen[i] == report::seen_of(ledger.checks[i])
            &&& r.unrecognised == evidence::unrecognised_in(t.tool_calls)
        }),
{
}

} // verus!
