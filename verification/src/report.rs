//! Rendering results for humans and for machines.

use vstd::prelude::*;

use crate::claims;
use crate::evidence::Ledger;
use crate::json;
use crate::json::{Json, JsonModel};
use crate::lists;
use crate::runners;
use crate::runners::{CheckRunModel, Outcome};
use crate::tamper::{Finding, FindingModel, Severity};
use crate::text;
use crate::verify;
use crate::verify::{Checked, CheckedModel, Verdict};

verus! {

/// One check that was recognised while reading the session.
#[derive(Debug)]
pub struct SeenRun {
    pub kind: &'static str,
    pub runner: String,
    pub outcome: &'static str,
    pub detail: Option<String>,
}

/// What a [`SeenRun`] stands for.
#[verifier::ext_equal]
pub struct SeenRunModel {
    pub kind: Seq<char>,
    pub runner: Seq<char>,
    pub outcome: Seq<char>,
    pub detail: Option<Seq<char>>,
}

impl DeepView for SeenRun {
    type V = SeenRunModel;

    open spec fn deep_view(&self) -> SeenRunModel {
        SeenRunModel {
            kind: self.kind@,
            runner: self.runner@,
            outcome: self.outcome@,
            detail: self.detail.deep_view(),
        }
    }
}

/// Everything one run of backcheck concluded.
#[derive(Debug)]
pub struct Report {
    pub session_id: Option<String>,
    pub transcript: String,
    pub checked: Vec<Checked>,
    pub findings: Vec<Finding>,
    /// Number of check runs seen, for the "nothing was ever run" case.
    pub runs_seen: usize,
    /// What was recognised, and what ran that was not.
    pub seen: Vec<SeenRun>,
    pub unrecognised: Vec<String>,
}

/// What a [`Report`] stands for.
#[verifier::ext_equal]
pub struct ReportModel {
    pub session_id: Option<Seq<char>>,
    pub transcript: Seq<char>,
    pub checked: Seq<CheckedModel>,
    pub findings: Seq<FindingModel>,
    pub runs_seen: usize,
    pub seen: Seq<SeenRunModel>,
    pub unrecognised: Seq<Seq<char>>,
}

impl DeepView for Report {
    type V = ReportModel;

    open spec fn deep_view(&self) -> ReportModel {
        ReportModel {
            session_id: self.session_id.deep_view(),
            transcript: self.transcript@,
            checked: self.checked.deep_view(),
            findings: self.findings.deep_view(),
            runs_seen: self.runs_seen,
            seen: self.seen.deep_view(),
            unrecognised: self.unrecognised.deep_view(),
        }
    }
}

// ---------------------------------------------------------------- what was recognised

/// An outcome in words.
pub open spec fn outcome_label(o: Outcome) -> Seq<char> {
    match o {
        Outcome::Passed => "passed"@,
        Outcome::Failed => "failed"@,
        Outcome::DidNotComplete => "did not complete"@,
        Outcome::Unknown => "unreadable"@,
    }
}

/// A run, as it is listed.
pub open spec fn seen_of(run: CheckRunModel) -> SeenRunModel {
    SeenRunModel {
        kind: runners::kind_label(run.kind),
        runner: run.runner,
        outcome: outcome_label(run.outcome),
        detail: run.evidence_line,
    }
}

/// List the runs of a ledger.
pub fn seen_runs(ledger: &Ledger) -> (r: Vec<SeenRun>)
    ensures
        r.deep_view() == ledger.deep_view().checks.map_values(|c: CheckRunModel| seen_of(c)),
{
    let mut out: Vec<SeenRun> = Vec::new();
    for i in 0..ledger.checks.len()
        invariant
            out@.len() == i,
            forall|k: int|
                0 <= k < i ==> (#[trigger] out@[k]).deep_view() == seen_of(
                    ledger.checks@[k].deep_view(),
                ),
    {
        let run = &ledger.checks[i];
        let outcome = match run.outcome {
            Outcome::Passed => "passed",
            Outcome::Failed => "failed",
            Outcome::DidNotComplete => "did not complete",
            Outcome::Unknown => "unreadable",
        };
        let detail = text::copied(&run.evidence_line);
        out.push(
            SeenRun { kind: run.kind.label(), runner: run.runner.clone(), outcome, detail },
        );
    }
    assert(out.deep_view() =~= ledger.deep_view().checks.map_values(
        |c: CheckRunModel| seen_of(c),
    ));
    out
}

// ---------------------------------------------------------------- problems

/// The claims that the user has to look into.
pub open spec fn problems_of(checked: Seq<CheckedModel>) -> Seq<CheckedModel> {
    lists::selected(
        checked,
        |c: CheckedModel|
            if verify::is_trouble(c.verdict) {
                Some(c)
            } else {
                None
            },
    )
}

/// The findings that strongly suggest the suite was weakened.
pub open spec fn warnings_of(findings: Seq<FindingModel>) -> Seq<FindingModel> {
    lists::selected(
        findings,
        |f: FindingModel|
            if f.severity == Severity::Warning {
                Some(f)
            } else {
                None
            },
    )
}

/// The claims with a verdict.
pub open spec fn with_verdict(checked: Seq<CheckedModel>, v: Verdict) -> Seq<CheckedModel> {
    lists::selected(
        checked,
        |c: CheckedModel|
            if c.verdict == v {
                Some(c)
            } else {
                None
            },
    )
}

/// There is something worth blocking or failing on.
pub open spec fn is_troubled(r: ReportModel) -> bool {
    problems_of(r.checked).len() > 0 || warnings_of(r.findings).len() > 0
}

/// A number of problems in words.
pub open spec fn problems_in_words(n: nat) -> Seq<char> {
    text::decimal_of(n) + " claim"@ + text::plural(n) + " not fully supported"@
}

/// A number of warnings in words.
pub open spec fn warnings_in_words(n: nat) -> Seq<char> {
    text::decimal_of(n) + " sign"@ + text::plural(n) + " the test suite was weakened"@
}

/// A report in one line. Inconclusive is not a problem, but it is not a pass either: folding it
/// into "all supported" would overstate what was actually verified.
pub open spec fn headline_of(r: ReportModel) -> Seq<char> {
    let p = problems_of(r.checked).len();
    let w = warnings_of(r.findings).len();
    let n = r.checked.len();
    let unverified = with_verdict(r.checked, Verdict::Inconclusive).len();
    let supported = (n - unverified) as nat;
    if p == 0 && w == 0 {
        if n == 0 {
            "no verifiable claims were made"@
        } else if unverified > 0 {
            text::decimal_of(supported) + " claim"@ + text::plural(supported) + " supported, "@
                + text::decimal_of(unverified) + " could not be checked"@
        } else {
            text::decimal_of(n) + " claim"@ + text::plural(n) + " checked, all supported"@
        }
    } else if w == 0 {
        problems_in_words(p)
    } else if p == 0 {
        warnings_in_words(w)
    } else {
        problems_in_words(p) + ", "@ + warnings_in_words(w)
    }
}

fn words_for_problems(n: usize) -> (r: String)
    ensures
        r@ == problems_in_words(n as nat),
{
    let mut s = text::decimal_usize(n);
    s.append(" claim");
    s.append(text::plural_of(n));
    s.append(" not fully supported");
    s
}

fn words_for_warnings(n: usize) -> (r: String)
    ensures
        r@ == warnings_in_words(n as nat),
{
    let mut s = text::decimal_usize(n);
    s.append(" sign");
    s.append(text::plural_of(n));
    s.append(" the test suite was weakened");
    s
}

impl Report {
    /// Claims whose verdict warrants the user's attention.
    pub fn problems(&self) -> (r: Vec<&Checked>)
        ensures
            r.deep_view() == problems_of(self.deep_view().checked),
    {
        let ghost all = self.deep_view().checked;
        let ghost f = |c: CheckedModel|
            if verify::is_trouble(c.verdict) {
                Some(c)
            } else {
                None
            };
        let mut out: Vec<&Checked> = Vec::new();
        assert(out.deep_view() =~= Seq::empty());
        for i in 0..self.checked.len()
            invariant
                all == self.checked.deep_view(),
                f == (|c: CheckedModel|
                    if verify::is_trouble(c.verdict) {
                        Some(c)
                    } else {
                        None
                    }),
                out.deep_view() == lists::selected(all.take(i as int), f),
        {
            let ghost before = out.deep_view();
            proof {
                lists::lemma_selected_step(all, f, i as int);
                assert(all[i as int] == self.checked@[i as int].deep_view());
            }
            if self.checked[i].verdict.is_problem() {
                out.push(&self.checked[i]);
                assert(out.deep_view() =~= before.push(all[i as int]));
            }
        }
        assert(all.take(all.len() as int) =~= all);
        out
    }

    pub fn warnings(&self) -> (r: Vec<&Finding>)
        ensures
            r.deep_view() == warnings_of(self.deep_view().findings),
    {
        let ghost all = self.deep_view().findings;
        let ghost f = |x: FindingModel|
            if x.severity == Severity::Warning {
                Some(x)
            } else {
                None
            };
        let mut out: Vec<&Finding> = Vec::new();
        assert(out.deep_view() =~= Seq::empty());
        for i in 0..self.findings.len()
            invariant
                all == self.findings.deep_view(),
                f == (|x: FindingModel|
                    if x.severity == Severity::Warning {
                        Some(x)
                    } else {
                        None
                    }),
                out.deep_view() == lists::selected(all.take(i as int), f),
        {
            let ghost before = out.deep_view();
            proof {
                lists::lemma_selected_step(all, f, i as int);
                assert(all[i as int] == self.findings@[i as int].deep_view());
            }
            if self.findings[i].severity == Severity::Warning {
                out.push(&self.findings[i]);
                assert(out.deep_view() =~= before.push(all[i as int]));
            }
        }
        assert(all.take(all.len() as int) =~= all);
        out
    }

    /// How many claims have a verdict.
    fn count_verdict(&self, v: Verdict) -> (n: usize)
        ensures
            n == with_verdict(self.deep_view().checked, v).len(),
            n <= self.checked@.len(),
    {
        let ghost all = self.deep_view().checked;
        let ghost f = |c: CheckedModel|
            if c.verdict == v {
                Some(c)
            } else {
                None
            };
        let mut n: usize = 0;
        for i in 0..self.checked.len()
            invariant
                all == self.checked.deep_view(),
                f == (|c: CheckedModel|
                    if c.verdict == v {
                        Some(c)
                    } else {
                        None
                    }),
                n <= i,
                n == lists::selected(all.take(i as int), f).len(),
        {
            proof {
                lists::lemma_selected_step(all, f, i as int);
                assert(all[i as int] == self.checked@[i as int].deep_view());
            }
            if self.checked[i].verdict == v {
                n = n + 1;
            }
        }
        assert(all.take(all.len() as int) =~= all);
        n
    }

    /// True when there is something worth blocking or failing on.
    pub fn has_problems(&self) -> (r: bool)
        ensures
            r == is_troubled(self.deep_view()),
    {
        let problems = self.problems();
        let warnings = self.warnings();
        assert(problems.deep_view().len() == problems@.len());
        assert(warnings.deep_view().len() == warnings@.len());
        problems.len() > 0 || warnings.len() > 0
    }

    /// A one-line summary suitable for a status line or a hook message.
    pub fn headline(&self) -> (r: String)
        ensures
            r@ == headline_of(self.deep_view()),
    {
        let problems = self.problems();
        let warnings = self.warnings();
        assert(problems.deep_view().len() == problems@.len());
        assert(warnings.deep_view().len() == warnings@.len());
        let p = problems.len();
        let w = warnings.len();
        let n = self.checked.len();
        let unverified = self.count_verdict(Verdict::Inconclusive);
        let supported = n - unverified;
        if p == 0 && w == 0 {
            if n == 0 {
                "no verifiable claims were made".to_owned()
            } else if unverified > 0 {
                let mut s = text::decimal_usize(supported);
                s.append(" claim");
                s.append(text::plural_of(supported));
                s.append(" supported, ");
                s.append(text::decimal_usize(unverified).as_str());
                s.append(" could not be checked");
                s
            } else {
                let mut s = text::decimal_usize(n);
                s.append(" claim");
                s.append(text::plural_of(n));
                s.append(" checked, all supported");
                s
            }
        } else if w == 0 {
            words_for_problems(p)
        } else if p == 0 {
            words_for_warnings(w)
        } else {
            let mut s = words_for_problems(p);
            s.append(", ");
            s.append(words_for_warnings(w).as_str());
            s
        }
    }
}

// ---------------------------------------------------------------- JSON

/// A string, or null where there is none.
pub open spec fn text_or_null(s: Option<Seq<char>>) -> JsonModel {
    match s {
        Some(t) => JsonModel::Text(t),
        None => JsonModel::Null,
    }
}

/// A number of things.
pub open spec fn number(n: nat) -> JsonModel {
    JsonModel::Number(text::decimal_of(n))
}

/// A claim in the document.
pub open spec fn claim_doc(c: CheckedModel) -> JsonModel {
    JsonModel::Object(
        seq![
            ("kind"@, JsonModel::Text(claims::claim_label(c.claim.kind))),
            ("verdict"@, JsonModel::Text(verify::verdict_label(c.verdict))),
            ("reason"@, JsonModel::Text(c.reason)),
            ("quote"@, JsonModel::Text(c.claim.quote)),
            ("in_final_message"@, JsonModel::Bool(c.claim.in_summary)),
            ("evidence"@, text_or_null(c.evidence)),
        ],
    )
}

/// A severity in one word.
pub open spec fn severity_label(s: Severity) -> Seq<char> {
    match s {
        Severity::Warning => "warning"@,
        Severity::Notice => "notice"@,
    }
}

/// A finding in the document.
pub open spec fn finding_doc(f: FindingModel) -> JsonModel {
    JsonModel::Object(
        seq![
            ("severity"@, JsonModel::Text(severity_label(f.severity))),
            ("kind"@, JsonModel::Text(f.kind)),
            ("path"@, JsonModel::Text(f.path)),
            ("detail"@, JsonModel::Text(f.detail)),
            ("snippet"@, text_or_null(f.snippet)),
        ],
    )
}

/// A recognised run in the document.
pub open spec fn seen_doc(s: SeenRunModel) -> JsonModel {
    JsonModel::Object(
        seq![
            ("kind"@, JsonModel::Text(s.kind)),
            ("runner"@, JsonModel::Text(s.runner)),
            ("outcome"@, JsonModel::Text(s.outcome)),
            ("evidence"@, text_or_null(s.detail)),
        ],
    )
}

/// The counts in the document.
pub open spec fn summary_doc(r: ReportModel) -> JsonModel {
    JsonModel::Object(
        seq![
            ("claims_checked"@, number(r.checked.len())),
            ("problems"@, number(problems_of(r.checked).len())),
            ("warnings"@, number(warnings_of(r.findings).len())),
            ("check_runs_seen"@, number(r.runs_seen as nat)),
            ("headline"@, JsonModel::Text(headline_of(r))),
        ],
    )
}

/// The document.
pub open spec fn report_doc(r: ReportModel) -> JsonModel {
    JsonModel::Object(
        seq![
            ("session_id"@, text_or_null(r.session_id)),
            ("transcript"@, JsonModel::Text(r.transcript)),
            ("summary"@, summary_doc(r)),
            (
                "claims"@,
                JsonModel::Array(r.checked.map_values(|c: CheckedModel| claim_doc(c))),
            ),
            (
                "test_integrity"@,
                JsonModel::Array(r.findings.map_values(|f: FindingModel| finding_doc(f))),
            ),
            (
                "checks_seen"@,
                JsonModel::Array(r.seen.map_values(|s: SeenRunModel| seen_doc(s))),
            ),
            (
                "unrecognised_commands"@,
                JsonModel::Array(r.unrecognised.map_values(|c: Seq<char>| JsonModel::Text(c))),
            ),
        ],
    )
}

/// A report as an indented JSON text.
pub open spec fn report_json(r: ReportModel) -> Seq<char> {
    match json::json_pretty(json::compact(report_doc(r))) {
        Some(t) => t,
        None => "{}"@,
    }
}

fn string_value(s: &str) -> (r: Json)
    ensures
        r.deep_view() == JsonModel::Text(s@),
{
    Json::Text(s.to_owned())
}

fn string_or_null(s: &Option<String>) -> (r: Json)
    ensures
        r.deep_view() == text_or_null(s.deep_view()),
{
    match s {
        Some(t) => Json::Text(t.clone()),
        None => Json::Null,
    }
}

fn count_value(n: usize) -> (r: Json)
    ensures
        r.deep_view() == number(n as nat),
{
    Json::Number(text::decimal_usize(n))
}

fn claim_value(c: &Checked) -> (r: Json)
    ensures
        r.deep_view() == claim_doc(c.deep_view()),
{
    let mut m: Vec<(String, Json)> = Vec::new();
    m.push(("kind".to_owned(), string_value(c.claim.kind.label())));
    m.push(("verdict".to_owned(), string_value(c.verdict.label())));
    m.push(("reason".to_owned(), string_value(c.reason.as_str())));
    m.push(("quote".to_owned(), string_value(c.claim.quote.as_str())));
    m.push(("in_final_message".to_owned(), Json::Bool(c.claim.in_summary)));
    m.push(("evidence".to_owned(), string_or_null(&c.evidence)));
    assert(m.deep_view() =~= claim_doc(c.deep_view())->Object_0);
    Json::object(m)
}

fn finding_value(f: &Finding) -> (r: Json)
    ensures
        r.deep_view() == finding_doc(f.deep_view()),
{
    let severity = match f.severity {
        Severity::Warning => "warning",
        Severity::Notice => "notice",
    };
    let mut m: Vec<(String, Json)> = Vec::new();
    m.push(("severity".to_owned(), string_value(severity)));
    m.push(("kind".to_owned(), string_value(f.kind)));
    m.push(("path".to_owned(), string_value(f.path.as_str())));
    m.push(("detail".to_owned(), string_value(f.detail.as_str())));
    m.push(("snippet".to_owned(), string_or_null(&f.snippet)));
    assert(m.deep_view() =~= finding_doc(f.deep_view())->Object_0);
    Json::object(m)
}

fn seen_value(s: &SeenRun) -> (r: Json)
    ensures
        r.deep_view() == seen_doc(s.deep_view()),
{
    let mut m: Vec<(String, Json)> = Vec::new();
    m.push(("kind".to_owned(), string_value(s.kind)));
    m.push(("runner".to_owned(), string_value(s.runner.as_str())));
    m.push(("outcome".to_owned(), string_value(s.outcome)));
    m.push(("evidence".to_owned(), string_or_null(&s.detail)));
    assert(m.deep_view() =~= seen_doc(s.deep_view())->Object_0);
    Json::object(m)
}

fn summary_value(r: &Report) -> (v: Json)
    ensures
        v.deep_view() == summary_doc(r.deep_view()),
{
    let problems = r.problems();
    let warnings = r.warnings();
    assert(problems.deep_view().len() == problems@.len());
    assert(warnings.deep_view().len() == warnings@.len());
    let mut m: Vec<(String, Json)> = Vec::new();
    m.push(("claims_checked".to_owned(), count_value(r.checked.len())));
    m.push(("problems".to_owned(), count_value(problems.len())));
    m.push(("warnings".to_owned(), count_value(warnings.len())));
    m.push(("check_runs_seen".to_owned(), count_value(r.runs_seen)));
    m.push(("headline".to_owned(), string_value(r.headline().as_str())));
    assert(m.deep_view() =~= summary_doc(r.deep_view())->Object_0);
    Json::object(m)
}

fn claim_values(r: &Report) -> (v: Json)
    ensures
        v.deep_view() == JsonModel::Array(
            r.deep_view().checked.map_values(|c: CheckedModel| claim_doc(c)),
        ),
{
    let mut out: Vec<Json> = Vec::new();
    for i in 0..r.checked.len()
        invariant
            out@.len() == i,
            forall|k: int|
                0 <= k < i ==> (#[trigger] out@[k]).deep_view() == claim_doc(
                    r.checked@[k].deep_view(),
                ),
    {
        out.push(claim_value(&r.checked[i]));
    }
    assert(out.deep_view() =~= r.deep_view().checked.map_values(|c: CheckedModel| claim_doc(c)));
    Json::array(out)
}

fn finding_values(r: &Report) -> (v: Json)
    ensures
        v.deep_view() == JsonModel::Array(
            r.deep_view().findings.map_values(|f: FindingModel| finding_doc(f)),
        ),
{
    let mut out: Vec<Json> = Vec::new();
    for i in 0..r.findings.len()
        invariant
            out@.len() == i,
            forall|k: int|
                0 <= k < i ==> (#[trigger] out@[k]).deep_view() == finding_doc(
                    r.findings@[k].deep_view(),
                ),
    {
        out.push(finding_value(&r.findings[i]));
    }
    assert(out.deep_view() =~= r.deep_view().findings.map_values(
        |f: FindingModel| finding_doc(f),
    ));
    Json::array(out)
}

fn seen_values(r: &Report) -> (v: Json)
    ensures
        v.deep_view() == JsonModel::Array(
            r.deep_view().seen.map_values(|s: SeenRunModel| seen_doc(s)),
        ),
{
    let mut out: Vec<Json> = Vec::new();
    for i in 0..r.seen.len()
        invariant
            out@.len() == i,
            forall|k: int|
                0 <= k < i ==> (#[trigger] out@[k]).deep_view() == seen_doc(
                    r.seen@[k].deep_view(),
                ),
    {
        out.push(seen_value(&r.seen[i]));
    }
    assert(out.deep_view() =~= r.deep_view().seen.map_values(|s: SeenRunModel| seen_doc(s)));
    Json::array(out)
}

fn command_values(r: &Report) -> (v: Json)
    ensures
        v.deep_view() == JsonModel::Array(
            r.deep_view().unrecognised.map_values(|c: Seq<char>| JsonModel::Text(c)),
        ),
{
    let mut out: Vec<Json> = Vec::new();
    for i in 0..r.unrecognised.len()
        invariant
            out@.len() == i,
            forall|k: int|
                0 <= k < i ==> (#[trigger] out@[k]).deep_view() == JsonModel::Text(
                    r.unrecognised@[k]@,
                ),
    {
        out.push(string_value(r.unrecognised[i].as_str()));
    }
    assert(out.deep_view() =~= r.deep_view().unrecognised.map_values(
        |c: Seq<char>| JsonModel::Text(c),
    ));
    Json::array(out)
}

/// The document of a report.
pub fn to_document(r: &Report) -> (v: Json)
    ensures
        v.deep_view() == report_doc(r.deep_view()),
{
    let mut m: Vec<(String, Json)> = Vec::new();
    m.push(("session_id".to_owned(), string_or_null(&r.session_id)));
    m.push(("transcript".to_owned(), string_value(r.transcript.as_str())));
    m.push(("summary".to_owned(), summary_value(r)));
    m.push(("claims".to_owned(), claim_values(r)));
    m.push(("test_integrity".to_owned(), finding_values(r)));
    m.push(("checks_seen".to_owned(), seen_values(r)));
    m.push(("unrecognised_commands".to_owned(), command_values(r)));
    assert(m.deep_view() =~= report_doc(r.deep_view())->Object_0);
    Json::object(m)
}

/// The value reads back as it is, and has at most `depth` arrays and objects inside each other.
spec fn returns_as_it_is(v: JsonModel, depth: nat) -> bool {
    &&& json::orderly(v)
    &&& json::unreserved(v)
    &&& json::rewritten(v) == v
    &&& json::is_shallow(v, depth)
}

proof fn lemma_array_returns(items: Seq<JsonModel>)
    requires
        forall|i: int| 0 <= i < items.len() ==> returns_as_it_is(#[trigger] items[i], 1),
    ensures
        returns_as_it_is(JsonModel::Array(items), 2),
{
    assert forall|i: int| 0 <= i < items.len() implies json::orderly(#[trigger] items[i])
        && json::unreserved(items[i]) && json::rewritten(items[i]) == items[i] && json::is_shallow(
        items[i],
        1,
    ) by {
        assert(returns_as_it_is(items[i], 1));
    }
    assert(json::rewritten_items(items) =~= items);
}

proof fn lemma_reserved_length()
    ensures
        json::reserved_key().len() == 30,
{
    reveal_strlit("$serde_json::private::RawValue");
}

proof fn lemma_claim_returns(c: CheckedModel)
    ensures
        returns_as_it_is(claim_doc(c), 1),
{
    lemma_reserved_length();
    reveal_strlit("kind");
    reveal_strlit("verdict");
    reveal_strlit("reason");
    reveal_strlit("quote");
    reveal_strlit("in_final_message");
    reveal_strlit("evidence");
    assert("kind"@.len() == 4);
    assert("verdict"@.len() == 7);
    assert("reason"@.len() == 6);
    assert("quote"@.len() == 5);
    assert("in_final_message"@.len() == 16);
    assert("evidence"@.len() == 8);
    let ms = claim_doc(c)->Object_0;
    assert(json::keys_of(ms) =~= seq![
        "kind"@,
        "verdict"@,
        "reason"@,
        "quote"@,
        "in_final_message"@,
        "evidence"@,
    ]);
    assert forall|i: int| 0 <= i < ms.len() implies (#[trigger] ms[i]).0 != json::reserved_key()
        && returns_as_it_is(ms[i].1, 0) by {
        assert(i == 0 || i == 1 || i == 2 || i == 3 || i == 4 || i == 5);
    }
    assert(json::rewritten_values(ms) =~= ms);
}

proof fn lemma_finding_returns(f: FindingModel)
    ensures
        returns_as_it_is(finding_doc(f), 1),
{
    lemma_reserved_length();
    reveal_strlit("severity");
    reveal_strlit("kind");
    reveal_strlit("path");
    reveal_strlit("detail");
    reveal_strlit("snippet");
    assert("severity"@.len() == 8);
    assert("kind"@.len() == 4);
    assert("path"@.len() == 4);
    assert("detail"@.len() == 6);
    assert("snippet"@.len() == 7);
    assert("kind"@[0] == 'k');
    assert("path"@[0] == 'p');
    let ms = finding_doc(f)->Object_0;
    assert(json::keys_of(ms) =~= seq![
        "severity"@,
        "kind"@,
        "path"@,
        "detail"@,
        "snippet"@,
    ]);
    assert forall|i: int| 0 <= i < ms.len() implies (#[trigger] ms[i]).0 != json::reserved_key()
        && returns_as_it_is(ms[i].1, 0) by {
        assert(i == 0 || i == 1 || i == 2 || i == 3 || i == 4);
    }
    assert(json::rewritten_values(ms) =~= ms);
}

proof fn lemma_seen_returns(s: SeenRunModel)
    ensures
        returns_as_it_is(seen_doc(s), 1),
{
    lemma_reserved_length();
    reveal_strlit("kind");
    reveal_strlit("runner");
    reveal_strlit("outcome");
    reveal_strlit("evidence");
    assert("kind"@.len() == 4);
    assert("runner"@.len() == 6);
    assert("outcome"@.len() == 7);
    assert("evidence"@.len() == 8);
    let ms = seen_doc(s)->Object_0;
    assert(json::keys_of(ms) =~= seq![
        "kind"@,
        "runner"@,
        "outcome"@,
        "evidence"@,
    ]);
    assert forall|i: int| 0 <= i < ms.len() implies (#[trigger] ms[i]).0 != json::reserved_key()
        && returns_as_it_is(ms[i].1, 0) by {
        assert(i == 0 || i == 1 || i == 2 || i == 3);
    }
    assert(json::rewritten_values(ms) =~= ms);
}

proof fn lemma_count_plain(n: nat)
    requires
        n <= u64::MAX,
    ensures
        json::is_decimal(text::decimal_of(n)),
{
    assert(text::decimal_of((n as u64) as nat) == text::decimal_of(n));
}

proof fn lemma_summary_returns(r: ReportModel)
    requires
        r.checked.len() <= u64::MAX,
        r.findings.len() <= u64::MAX,
    ensures
        returns_as_it_is(summary_doc(r), 1),
{
    lemma_reserved_length();
    reveal_strlit("claims_checked");
    reveal_strlit("problems");
    reveal_strlit("warnings");
    reveal_strlit("check_runs_seen");
    reveal_strlit("headline");
    assert("claims_checked"@.len() == 14);
    assert("problems"@.len() == 8);
    assert("warnings"@.len() == 8);
    assert("check_runs_seen"@.len() == 15);
    assert("headline"@.len() == 8);
    assert("problems"@[0] == 'p');
    assert("warnings"@[0] == 'w');
    assert("headline"@[0] == 'h');
    lists::lemma_selected_len(
        r.checked,
        |c: CheckedModel|
            if verify::is_trouble(c.verdict) {
                Some(c)
            } else {
                None
            },
    );
    lists::lemma_selected_len(
        r.findings,
        |x: FindingModel|
            if x.severity == Severity::Warning {
                Some(x)
            } else {
                None
            },
    );
    lemma_count_plain(r.checked.len());
    lemma_count_plain(problems_of(r.checked).len());
    lemma_count_plain(warnings_of(r.findings).len());
    lemma_count_plain(r.runs_seen as nat);
    let ms = summary_doc(r)->Object_0;
    assert(json::keys_of(ms) =~= seq![
        "claims_checked"@,
        "problems"@,
        "warnings"@,
        "check_runs_seen"@,
        "headline"@,
    ]);
    assert forall|i: int| 0 <= i < ms.len() implies (#[trigger] ms[i]).0 != json::reserved_key()
        && returns_as_it_is(ms[i].1, 0) by {
        assert(i == 0 || i == 1 || i == 2 || i == 3 || i == 4);
    }
    assert(json::rewritten_values(ms) =~= ms);
}

proof fn lemma_shallower(v: JsonModel, m: nat, n: nat)
    requires
        json::is_shallow(v, m),
        m <= n,
    ensures
        json::is_shallow(v, n),
    decreases v,
{
    match v {
        JsonModel::Array(items) => {
            assert forall|i: int| 0 <= i < items.len() implies json::is_shallow(
                #[trigger] items[i],
                (n - 1) as nat,
            ) by {
                lemma_shallower(items[i], (m - 1) as nat, (n - 1) as nat);
            }
        },
        JsonModel::Object(members) => {
            assert forall|i: int| 0 <= i < members.len() implies json::is_shallow(
                (#[trigger] members[i]).1,
                (n - 1) as nat,
            ) by {
                lemma_shallower(members[i].1, (m - 1) as nat, (n - 1) as nat);
            }
        },
        _ => {},
    }
}

proof fn lemma_report_returns(r: ReportModel)
    requires
        r.checked.len() <= u64::MAX,
        r.findings.len() <= u64::MAX,
    ensures
        returns_as_it_is(report_doc(r), json::depth_limit()),
{
    lemma_reserved_length();
    reveal_strlit("session_id");
    reveal_strlit("transcript");
    reveal_strlit("summary");
    reveal_strlit("claims");
    reveal_strlit("test_integrity");
    reveal_strlit("checks_seen");
    reveal_strlit("unrecognised_commands");
    assert("session_id"@.len() == 10);
    assert("transcript"@.len() == 10);
    assert("summary"@.len() == 7);
    assert("claims"@.len() == 6);
    assert("test_integrity"@.len() == 14);
    assert("checks_seen"@.len() == 11);
    assert("unrecognised_commands"@.len() == 21);
    assert("session_id"@[0] == 's');
    assert("transcript"@[0] == 't');
    lemma_summary_returns(r);
    let claims = r.checked.map_values(|c: CheckedModel| claim_doc(c));
    assert forall|i: int| 0 <= i < claims.len() implies returns_as_it_is(
        #[trigger] claims[i],
        1,
    ) by {
        lemma_claim_returns(r.checked[i]);
    }
    let findings = r.findings.map_values(|f: FindingModel| finding_doc(f));
    assert forall|i: int| 0 <= i < findings.len() implies returns_as_it_is(
        #[trigger] findings[i],
        1,
    ) by {
        lemma_finding_returns(r.findings[i]);
    }
    let seen = r.seen.map_values(|s: SeenRunModel| seen_doc(s));
    assert forall|i: int| 0 <= i < seen.len() implies returns_as_it_is(
        #[trigger] seen[i],
        1,
    ) by {
        lemma_seen_returns(r.seen[i]);
    }
    let commands = r.unrecognised.map_values(|c: Seq<char>| JsonModel::Text(c));
    assert forall|i: int| 0 <= i < commands.len() implies returns_as_it_is(
        #[trigger] commands[i],
        1,
    ) by {}
    lemma_array_returns(commands);
    lemma_array_returns(claims);
    lemma_array_returns(findings);
    lemma_array_returns(seen);
    lemma_shallower(summary_doc(r), 1, 2);
    let ms = report_doc(r)->Object_0;
    assert(json::keys_of(ms) =~= seq![
        "session_id"@,
        "transcript"@,
        "summary"@,
        "claims"@,
        "test_integrity"@,
        "checks_seen"@,
        "unrecognised_commands"@,
    ]);
    assert forall|i: int| 0 <= i < ms.len() implies (#[trigger] ms[i]).0 != json::reserved_key()
        && returns_as_it_is(ms[i].1, 2) by {
        assert(i == 0 || i == 1 || i == 2 || i == 3 || i == 4 || i == 5 || i == 6);
    }
    assert(json::rewritten_values(ms) =~= ms);
    lemma_shallower(report_doc(r), 3, json::depth_limit());
}

/// The report as indented JSON. Reading it gives the document back, with the members of every
/// object in the order of their keys.
pub fn to_json(r: &Report) -> (s: String)
    ensures
        s@ == report_json(r.deep_view()),
        json::parsed(s@) == Some(json::sorted(report_doc(r.deep_view()))),
{
    let doc = to_document(r);
    proof {
        reveal(json::read_back);
        assert(r.deep_view().checked.len() == r.checked.len());
        assert(r.deep_view().findings.len() == r.findings.len());
        lemma_report_returns(r.deep_view());
    }
    match json::pretty(doc.to_text().as_str()) {
        Some(t) => t,
        None => "{}".to_owned(),
    }
}

// ---------------------------------------------------------------- colour

/// Respect a wish for no colour, and terminals that have none.
pub open spec fn wants_color(no_color: bool, no_color_set: bool, term: Option<Seq<char>>) -> bool {
    &&& !no_color
    &&& !no_color_set
    &&& term matches Some(t) && t != "dumb"@
}

/// Respect `NO_COLOR`, `--no-color`, and non-terminal output: `no_color` is the flag,
/// `no_color_set` says whether `NO_COLOR` is set, and `term` is the value of `TERM`.
pub fn use_color(no_color: bool, no_color_set: bool, term: &Option<String>) -> (r: bool)
    ensures
        r == wants_color(no_color, no_color_set, term.deep_view()),
{
    if no_color || no_color_set {
        return false;
    }
    match term {
        Some(t) => !text::same(t.as_str(), "dumb"),
        None => false,
    }
}

/// A text in a colour, where colour is on.
pub open spec fn painted(on: bool, code: Seq<char>, s: Seq<char>) -> Seq<char> {
    if on {
        "\x1b["@ + code + "m"@ + s + "\x1b[0m"@
    } else {
        s
    }
}

pub open spec fn bold(on: bool, s: Seq<char>) -> Seq<char> {
    painted(on, "1"@, s)
}

pub open spec fn dim(on: bool, s: Seq<char>) -> Seq<char> {
    painted(on, "2"@, s)
}

pub open spec fn red(on: bool, s: Seq<char>) -> Seq<char> {
    painted(on, "31;1"@, s)
}

pub open spec fn yellow(on: bool, s: Seq<char>) -> Seq<char> {
    painted(on, "33;1"@, s)
}

pub open spec fn green(on: bool, s: Seq<char>) -> Seq<char> {
    painted(on, "32;1"@, s)
}

pub open spec fn cyan(on: bool, s: Seq<char>) -> Seq<char> {
    painted(on, "36"@, s)
}

struct Style {
    on: bool,
}

impl Style {
    fn paint(&self, code: &str, s: &str) -> (r: String)
        ensures
            r@ == painted(self.on, code@, s@),
    {
        if self.on {
            let mut out = text::concat3("\x1b[", code, "m");
            out.append(s);
            out.append("\x1b[0m");
            out
        } else {
            s.to_owned()
        }
    }

    fn bold(&self, s: &str) -> (r: String)
        ensures
            r@ == bold(self.on, s@),
    {
        self.paint("1", s)
    }

    fn dim(&self, s: &str) -> (r: String)
        ensures
            r@ == dim(self.on, s@),
    {
        self.paint("2", s)
    }

    fn red(&self, s: &str) -> (r: String)
        ensures
            r@ == red(self.on, s@),
    {
        self.paint("31;1", s)
    }

    fn yellow(&self, s: &str) -> (r: String)
        ensures
            r@ == yellow(self.on, s@),
    {
        self.paint("33;1", s)
    }

    fn green(&self, s: &str) -> (r: String)
        ensures
            r@ == green(self.on, s@),
    {
        self.paint("32;1", s)
    }

    fn cyan(&self, s: &str) -> (r: String)
        ensures
            r@ == cyan(self.on, s@),
    {
        self.paint("36", s)
    }
}

// ---------------------------------------------------------------- terminal

/// The mark before a claim.
pub open spec fn verdict_mark(v: Verdict, on: bool) -> Seq<char> {
    match v {
        Verdict::Supported => green(on, "✓ supported  "@),
        Verdict::Qualified => yellow(on, "~ qualified  "@),
        Verdict::Unsupported => red(on, "✗ unsupported"@),
        Verdict::Contradicted => red(on, "✗ contradicted"@),
        Verdict::Inconclusive => dim(on, "? inconclusive"@),
    }
}

fn verdict_marker(v: Verdict, st: &Style) -> (r: String)
    ensures
        r@ == verdict_mark(v, st.on),
{
    match v {
        Verdict::Supported => st.green("✓ supported  "),
        Verdict::Qualified => st.yellow("~ qualified  "),
        Verdict::Unsupported => st.red("✗ unsupported"),
        Verdict::Contradicted => st.red("✗ contradicted"),
        Verdict::Inconclusive => st.dim("? inconclusive"),
    }
}

/// An indented line, where there is something to put on it.
pub open spec fn evidence_line(e: Option<Seq<char>>, on: bool) -> Seq<char> {
    match e {
        Some(t) => "      "@ + cyan(on, "evidence: "@ + t) + "\n"@,
        None => Seq::empty(),
    }
}

/// A claim on the terminal. Supported claims are only shown where all are asked for.
pub open spec fn claim_lines(c: CheckedModel, on: bool, verbose: bool) -> Seq<char> {
    if !verbose && c.verdict == Verdict::Supported {
        Seq::empty()
    } else {
        "  "@ + verdict_mark(c.verdict, on) + "  "@ + bold(on, claims::claim_label(c.claim.kind))
            + "\n      "@ + dim(on, "“"@ + c.claim.quote + "”"@) + "\n      "@ + c.reason + "\n"@
            + evidence_line(c.evidence, on) + "\n"@
    }
}

/// One claim is shown ahead of another: its verdict is worse.
pub open spec fn shown_ahead() -> spec_fn(CheckedModel, CheckedModel) -> bool {
    |a: CheckedModel, b: CheckedModel| verify::badness(a.verdict) > verify::badness(b.verdict)
}

/// What is said of the claims that are not shown.
pub open spec fn hidden_note(n: nat, on: bool, verbose: bool) -> Seq<char> {
    if !verbose && n > 0 {
        dim(
            on,
            "  ("@ + text::decimal_of(n)
                + " supported claim(s) hidden; use --verbose to show)\n\n"@,
        )
    } else {
        Seq::empty()
    }
}

/// The claims on the terminal, problems first.
pub open spec fn claims_section(checked: Seq<CheckedModel>, on: bool, verbose: bool) -> Seq<char> {
    if checked.len() == 0 {
        Seq::empty()
    } else {
        bold(on, "  Claims\n"@) + lists::gathered(
            lists::in_order(checked, shown_ahead()),
            |c: CheckedModel| claim_lines(c, on, verbose),
        ) + hidden_note(with_verdict(checked, Verdict::Supported).len(), on, verbose)
    }
}

/// A finding on the terminal.
pub open spec fn finding_lines(f: FindingModel, on: bool) -> Seq<char> {
    let mark = match f.severity {
        Severity::Warning => red(on, "!"@),
        Severity::Notice => yellow(on, "·"@),
    };
    let snippet = match f.snippet {
        Some(s) => "      "@ + cyan(on, s) + "\n"@,
        None => Seq::empty(),
    };
    "  "@ + mark + " "@ + bold(on, f.kind) + "  "@ + dim(on, f.path) + "\n      "@ + f.detail
        + "\n"@ + snippet + "\n"@
}

/// The findings on the terminal.
pub open spec fn findings_section(findings: Seq<FindingModel>, on: bool) -> Seq<char> {
    if findings.len() == 0 {
        Seq::empty()
    } else {
        bold(on, "  Test integrity\n"@) + lists::gathered(
            findings,
            |f: FindingModel| finding_lines(f, on),
        )
    }
}

/// How many bytes of a session's name are shown.
pub open spec fn shown_bytes(id: Seq<char>) -> int {
    if text::byte_len_of(id) < 8 {
        text::byte_len_of(id) as int
    } else {
        8
    }
}

/// The name of the session can be cut for display.
pub open spec fn can_be_shown(r: ReportModel) -> bool {
    r.session_id matches Some(id) ==> text::splits_at(id, shown_bytes(id))
}

/// The name of the session, cut for display.
pub open spec fn session_note(id: Option<Seq<char>>, on: bool) -> Seq<char> {
    match id {
        Some(t) => dim(on, "  session "@ + text::first_bytes(t, shown_bytes(t))),
        None => Seq::empty(),
    }
}

/// What a report begins with.
pub open spec fn header(r: ReportModel, on: bool) -> Seq<char> {
    "\n"@ + bold(on, "backcheck"@) + session_note(r.session_id, on) + "\n"@ + dim(
        on,
        "  "@ + r.transcript + "\n\n"@,
    )
}

/// What a report ends with.
pub open spec fn footer(r: ReportModel, on: bool) -> Seq<char> {
    let line = "  "@ + headline_of(r) + "\n"@;
    (if is_troubled(r) {
        red(on, line)
    } else {
        green(on, line)
    }) + "\n"@
}

/// A report on the terminal.
pub open spec fn terminal_text(r: ReportModel, on: bool, verbose: bool) -> Seq<char> {
    if r.checked.len() == 0 && r.findings.len() == 0 {
        header(r, on) + dim(on, "  No verifiable claims were made in this session.\n\n"@)
    } else {
        header(r, on) + claims_section(r.checked, on, verbose) + findings_section(
            r.findings,
            on,
        ) + footer(r, on)
    }
}

fn lines_for_claim(c: &Checked, st: &Style, verbose: bool) -> (r: String)
    ensures
        r@ == claim_lines(c.deep_view(), st.on, verbose),
{
    let mut out = String::new();
    assert(out@ =~= Seq::empty());
    if !verbose && c.verdict == Verdict::Supported {
        return out;
    }
    out.append("  ");
    assert(out@ =~= "  "@);
    out.append(verdict_marker(c.verdict, st).as_str());
    out.append("  ");
    out.append(st.bold(c.claim.kind.label()).as_str());
    out.append("\n      ");
    let quote = text::concat3("“", c.claim.quote.as_str(), "”");
    out.append(st.dim(quote.as_str()).as_str());
    out.append("\n      ");
    out.append(c.reason.as_str());
    out.append("\n");
    if let Some(e) = &c.evidence {
        let mut shown = "evidence: ".to_owned();
        shown.append(e.as_str());
        let line = text::concat3("      ", st.cyan(shown.as_str()).as_str(), "\n");
        out.append(line.as_str());
    } else {
        assert(out@ + Seq::<char>::empty() =~= out@);
    }
    out.append("\n");
    out
}

fn worst_first(r: &Report) -> (v: Vec<&Checked>)
    ensures
        v.deep_view() == lists::in_order(r.deep_view().checked, shown_ahead()),
{
    let ghost all = r.deep_view().checked;
    let mut out: Vec<&Checked> = Vec::new();
    assert(out.deep_view() =~= lists::in_order(all.take(0), shown_ahead()));
    for i in 0..r.checked.len()
        invariant
            all == r.checked.deep_view(),
            out.deep_view() == lists::in_order(all.take(i as int), shown_ahead()),
    {
        let ghost before = out.deep_view();
        let c = &r.checked[i];
        let mut at: usize = out.len();
        while at > 0 && c.verdict.severity() > out[at - 1].verdict.severity()
            invariant
                at <= out@.len(),
                before == out.deep_view(),
                forall|k: int|
                    at <= k < before.len() ==> shown_ahead()(c.deep_view(), #[trigger] before[k]),
            decreases at,
        {
            assert(before[at - 1] == out@[at - 1].deep_view());
            at = at - 1;
        }
        proof {
            if at > 0 {
                assert(before[at - 1] == out@[at - 1].deep_view());
            }
            lists::lemma_placed(before, c.deep_view(), shown_ahead(), at as int);
            assert(all.take(i + 1).drop_last() =~= all.take(i as int));
            assert(all.take(i + 1).last() == c.deep_view());
        }
        out.insert(at, c);
        assert(out.deep_view() =~= before.insert(at as int, c.deep_view()));
    }
    assert(all.take(all.len() as int) =~= all);
    out
}

fn section_for_claims(r: &Report, st: &Style, verbose: bool) -> (s: String)
    ensures
        s@ == claims_section(r.deep_view().checked, st.on, verbose),
{
    if r.checked.len() == 0 {
        let none = String::new();
        assert(none@ =~= Seq::empty());
        return none;
    }
    let ordered = worst_first(r);
    let ghost all = ordered.deep_view();
    let ghost f = |c: CheckedModel| claim_lines(c, st.on, verbose);
    let mut out = st.bold("  Claims\n");
    let ghost head = out@;
    assert(head + Seq::<char>::empty() =~= head);
    for i in 0..ordered.len()
        invariant
            all == ordered.deep_view(),
            f == (|c: CheckedModel| claim_lines(c, st.on, verbose)),
            out@ == head + lists::gathered(all.take(i as int), f),
    {
        proof {
            lists::lemma_gathered_step(all, f, i as int);
            assert(all[i as int] == ordered@[i as int].deep_view());
        }
        out.append(lines_for_claim(ordered[i], st, verbose).as_str());
        assert(out@ =~= head + lists::gathered(all.take(i + 1), f));
    }
    assert(all.take(all.len() as int) =~= all);
    let supported = r.count_verdict(Verdict::Supported);
    if !verbose && supported > 0 {
        let note = text::concat3(
            "  (",
            text::decimal_usize(supported).as_str(),
            " supported claim(s) hidden; use --verbose to show)\n\n",
        );
        out.append(st.dim(note.as_str()).as_str());
    } else {
        assert(out@ + Seq::<char>::empty() =~= out@);
    }
    out
}

fn lines_for_finding(f: &Finding, st: &Style) -> (r: String)
    ensures
        r@ == finding_lines(f.deep_view(), st.on),
{
    let mark = match f.severity {
        Severity::Warning => st.red("!"),
        Severity::Notice => st.yellow("·"),
    };
    let mut out = text::concat3("  ", mark.as_str(), " ");
    out.append(st.bold(f.kind).as_str());
    out.append("  ");
    out.append(st.dim(f.path.as_str()).as_str());
    out.append("\n      ");
    out.append(f.detail.as_str());
    out.append("\n");
    if let Some(s) = &f.snippet {
        let line = text::concat3("      ", st.cyan(s.as_str()).as_str(), "\n");
        out.append(line.as_str());
    } else {
        assert(out@ + Seq::<char>::empty() =~= out@);
    }
    out.append("\n");
    out
}

fn section_for_findings(r: &Report, st: &Style) -> (s: String)
    ensures
        s@ == findings_section(r.deep_view().findings, st.on),
{
    if r.findings.len() == 0 {
        let none = String::new();
        assert(none@ =~= Seq::empty());
        return none;
    }
    let ghost all = r.deep_view().findings;
    let ghost f = |x: FindingModel| finding_lines(x, st.on);
    let mut out = st.bold("  Test integrity\n");
    let ghost head = out@;
    assert(head + Seq::<char>::empty() =~= head);
    for i in 0..r.findings.len()
        invariant
            all == r.findings.deep_view(),
            f == (|x: FindingModel| finding_lines(x, st.on)),
            out@ == head + lists::gathered(all.take(i as int), f),
    {
        proof {
            lists::lemma_gathered_step(all, f, i as int);
            assert(all[i as int] == r.findings@[i as int].deep_view());
        }
        out.append(lines_for_finding(&r.findings[i], st).as_str());
        assert(out@ =~= head + lists::gathered(all.take(i + 1), f));
    }
    assert(all.take(all.len() as int) =~= all);
    out
}

fn header_for(r: &Report, st: &Style) -> (s: String)
    requires
        can_be_shown(r.deep_view()),
    ensures
        s@ == header(r.deep_view(), st.on),
{
    let mut out = "\n".to_owned();
    out.append(st.bold("backcheck").as_str());
    if let Some(id) = &r.session_id {
        let bytes = text::byte_len(id.as_str());
        let n: usize = if bytes < 8 {
            bytes
        } else {
            8
        };
        let mut note = "  session ".to_owned();
        note.append(text::take_bytes(id.as_str(), n).as_str());
        out.append(st.dim(note.as_str()).as_str());
    } else {
        assert(out@ + Seq::<char>::empty() =~= out@);
    }
    out.append("\n");
    let path = text::concat3("  ", r.transcript.as_str(), "\n\n");
    out.append(st.dim(path.as_str()).as_str());
    out
}

/// Can the name of the session be cut for display? A name in which the cut would fall inside a
/// character cannot.
pub fn is_showable(r: &Report) -> (b: bool)
    ensures
        b == can_be_shown(r.deep_view()),
{
    match &r.session_id {
        Some(id) => {
            let bytes = text::byte_len(id.as_str());
            let n: usize = if bytes < 8 {
                bytes
            } else {
                8
            };
            text::can_split(id.as_str(), n)
        },
        None => true,
    }
}

/// The report, for reading on a terminal.
pub fn to_terminal(r: &Report, color: bool, verbose: bool) -> (s: String)
    requires
        can_be_shown(r.deep_view()),
    ensures
        s@ == terminal_text(r.deep_view(), color, verbose),
{
    let st = Style { on: color };
    let mut out = header_for(r, &st);
    if r.checked.len() == 0 && r.findings.len() == 0 {
        out.append(st.dim("  No verifiable claims were made in this session.\n\n").as_str());
        return out;
    }
    out.append(section_for_claims(r, &st, verbose).as_str());
    out.append(section_for_findings(r, &st).as_str());
    let line = text::concat3("  ", r.headline().as_str(), "\n");
    let mut foot = if r.has_problems() {
        st.red(line.as_str())
    } else {
        st.green(line.as_str())
    };
    foot.append("\n");
    out.append(foot.as_str());
    out
}

// ---------------------------------------------------------------- explanation

/// The mark before a recognised run.
pub open spec fn outcome_mark(outcome: Seq<char>, on: bool) -> Seq<char> {
    if outcome == "passed"@ {
        green(on, "passed          "@)
    } else if outcome == "failed"@ {
        red(on, "failed          "@)
    } else if outcome == "did not complete"@ {
        yellow(on, "did not complete"@)
    } else {
        dim(on, "unreadable      "@)
    }
}

/// A recognised run on the terminal.
pub open spec fn seen_lines(s: SeenRunModel, on: bool) -> Seq<char> {
    let detail = match s.detail {
        Some(d) => "        "@ + dim(on, d) + "\n"@,
        None => Seq::empty(),
    };
    "    "@ + outcome_mark(s.outcome, on) + "  "@ + bold(on, s.runner) + " ("@ + s.kind + ")\n"@
        + detail
}

/// A command that was not recognised, on the terminal.
pub open spec fn command_line(c: Seq<char>, on: bool) -> Seq<char> {
    "    "@ + cyan(on, c) + "\n"@
}

/// The commands that were not recognised, on the terminal: at most fifteen, and how many more
/// there are.
pub open spec fn commands_section(commands: Seq<Seq<char>>, on: bool) -> Seq<char> {
    if commands.len() == 0 {
        Seq::empty()
    } else {
        let shown = commands.take(
            if commands.len() < 15 {
                commands.len() as int
            } else {
                15
            },
        );
        let more = if commands.len() > 15 {
            dim(
                on,
                "    (+"@ + text::decimal_of((commands.len() - 15) as nat) + " more)\n"@,
            )
        } else {
            Seq::empty()
        };
        "\n"@ + bold(on, "  Ran, but not recognised as a check\n"@) + dim(
            on,
            "    If one of these is a real check, backcheck is missing a runner for it.\n"@,
        ) + lists::gathered(shown, |c: Seq<char>| command_line(c, on)) + more
    }
}

/// What was seen in a session, on the terminal.
pub open spec fn explanation_text(r: ReportModel, on: bool) -> Seq<char> {
    let none = if r.seen.len() == 0 {
        dim(on, "    no checks recognised in this session\n"@)
    } else {
        Seq::empty()
    };
    bold(on, "  What backcheck saw\n"@) + none + lists::gathered(
        r.seen,
        |s: SeenRunModel| seen_lines(s, on),
    ) + commands_section(r.unrecognised, on) + "\n"@
}

fn lines_for_seen(s: &SeenRun, st: &Style) -> (r: String)
    ensures
        r@ == seen_lines(s.deep_view(), st.on),
{
    let mark = if text::same(s.outcome, "passed") {
        st.green("passed          ")
    } else if text::same(s.outcome, "failed") {
        st.red("failed          ")
    } else if text::same(s.outcome, "did not complete") {
        st.yellow("did not complete")
    } else {
        st.dim("unreadable      ")
    };
    let mut out = text::concat3("    ", mark.as_str(), "  ");
    out.append(st.bold(s.runner.as_str()).as_str());
    out.append(" (");
    out.append(s.kind);
    out.append(")\n");
    if let Some(d) = &s.detail {
        let line = text::concat3("        ", st.dim(d.as_str()).as_str(), "\n");
        out.append(line.as_str());
    } else {
        assert(out@ + Seq::<char>::empty() =~= out@);
    }
    out
}

fn section_for_commands(r: &Report, st: &Style) -> (s: String)
    ensures
        s@ == commands_section(r.deep_view().unrecognised, st.on),
{
    let total = r.unrecognised.len();
    if total == 0 {
        let none = String::new();
        assert(none@ =~= Seq::empty());
        return none;
    }
    let n: usize = if total < 15 {
        total
    } else {
        15
    };
    let ghost all = r.deep_view().unrecognised;
    let ghost shown = all.take(n as int);
    let ghost f = |c: Seq<char>| command_line(c, st.on);
    let mut out = "\n".to_owned();
    out.append(st.bold("  Ran, but not recognised as a check\n").as_str());
    out.append(
        st.dim(
            "    If one of these is a real check, backcheck is missing a runner for it.\n",
        ).as_str(),
    );
    let ghost head = out@;
    assert(head + Seq::<char>::empty() =~= head);
    for i in 0..n
        invariant
            n <= r.unrecognised@.len(),
            all == r.unrecognised.deep_view(),
            shown == all.take(n as int),
            f == (|c: Seq<char>| command_line(c, st.on)),
            out@ == head + lists::gathered(shown.take(i as int), f),
    {
        proof {
            lists::lemma_gathered_step(shown, f, i as int);
            assert(shown[i as int] == r.unrecognised@[i as int]@);
        }
        let line = text::concat3("    ", st.cyan(r.unrecognised[i].as_str()).as_str(), "\n");
        out.append(line.as_str());
        assert(out@ =~= head + lists::gathered(shown.take(i + 1), f));
    }
    assert(shown.take(n as int) =~= shown);
    if total > 15 {
        let more = text::concat3("    (+", text::decimal_usize(total - 15).as_str(), " more)\n");
        out.append(st.dim(more.as_str()).as_str());
    } else {
        assert(out@ + Seq::<char>::empty() =~= out@);
    }
    out
}

/// What backcheck saw, for when a verdict is surprising.
///
/// The usual reason a claim reads as unsupported is not that nothing ran, but that the tool
/// that ran is one backcheck does not know. Showing both lists makes that immediate.
pub fn to_explanation(r: &Report, color: bool) -> (s: String)
    ensures
        s@ == explanation_text(r.deep_view(), color),
{
    let st = Style { on: color };
    let mut out = st.bold("  What backcheck saw\n");
    if r.seen.len() == 0 {
        out.append(st.dim("    no checks recognised in this session\n").as_str());
    } else {
        assert(out@ + Seq::<char>::empty() =~= out@);
    }
    let ghost all = r.deep_view().seen;
    let ghost f = |x: SeenRunModel| seen_lines(x, color);
    let ghost head = out@;
    assert(head + Seq::<char>::empty() =~= head);
    for i in 0..r.seen.len()
        invariant
            st.on == color,
            all == r.seen.deep_view(),
            f == (|x: SeenRunModel| seen_lines(x, color)),
            out@ == head + lists::gathered(all.take(i as int), f),
    {
        proof {
            lists::lemma_gathered_step(all, f, i as int);
            assert(all[i as int] == r.seen@[i as int].deep_view());
        }
        out.append(lines_for_seen(&r.seen[i], &st).as_str());
        assert(out@ =~= head + lists::gathered(all.take(i + 1), f));
    }
    assert(all.take(all.len() as int) =~= all);
    out.append(section_for_commands(r, &st).as_str());
    out.append("\n");
    out
}

// ---------------------------------------------------------------- hook

/// A problem, as it is handed back.
pub open spec fn problem_lines(c: CheckedModel) -> Seq<Seq<char>> {
    seq![
        "- "@ + claims::claim_label(c.claim.kind) + " ("@ + verify::verdict_label(c.verdict)
            + "): "@ + c.reason,
        "  claimed: “"@ + c.claim.quote + "”"@,
    ]
}

/// A warning, as it is handed back.
pub open spec fn warning_line(f: FindingModel) -> Seq<char> {
    "- test integrity: "@ + f.kind + " in "@ + f.path + " — "@ + f.detail
}

/// The lines of the message that a block hands back.
pub open spec fn reason_lines(r: ReportModel) -> Seq<Seq<char>> {
    seq![
        "backcheck reviewed this session's transcript and could not verify some of what was reported:"@,
        ""@,
    ] + lists::gathered(problems_of(r.checked), |c: CheckedModel| problem_lines(c))
        + warnings_of(r.findings).map_values(|f: FindingModel| warning_line(f)) + seq![
        ""@,
        "Please resolve each point: run the checks you referred to, or correct the summary so it matches what actually happened."@,
    ]
}

/// The message that a block hands back.
pub open spec fn hook_reason(r: ReportModel) -> Seq<char> {
    text::joined(reason_lines(r), "\n"@)
}

/// The message handed back to the agent when a Stop hook blocks.
pub fn to_hook_reason(r: &Report) -> (s: String)
    ensures
        s@ == hook_reason(r.deep_view()),
{
    let mut lines: Vec<String> = Vec::new();
    lines.push(
        "backcheck reviewed this session's transcript and could not verify some of what was reported:".to_owned(),
    );
    lines.push("".to_owned());
    let ghost head = lines.deep_view();
    assert(head =~= seq![
        "backcheck reviewed this session's transcript and could not verify some of what was reported:"@,
        ""@,
    ]);
    let problems = r.problems();
    let ghost ps = problems.deep_view();
    let ghost f = |c: CheckedModel| problem_lines(c);
    assert(head + Seq::<Seq<char>>::empty() =~= head);
    for i in 0..problems.len()
        invariant
            ps == problems.deep_view(),
            f == (|c: CheckedModel| problem_lines(c)),
            lines.deep_view() == head + lists::gathered(ps.take(i as int), f),
    {
        let ghost before = lines.deep_view();
        let c = problems[i];
        proof {
            lists::lemma_gathered_step(ps, f, i as int);
            assert(ps[i as int] == c.deep_view());
        }
        let mut first = text::concat3("- ", c.claim.kind.label(), " (");
        first.append(c.verdict.label());
        first.append("): ");
        first.append(c.reason.as_str());
        lines.push(first);
        lines.push(text::concat3("  claimed: “", c.claim.quote.as_str(), "”"));
        assert(lines.deep_view() =~= before + problem_lines(c.deep_view()));
        assert(lines.deep_view() =~= head + lists::gathered(ps.take(i + 1), f));
    }
    assert(ps.take(ps.len() as int) =~= ps);
    let ghost told = lines.deep_view();
    let warnings = r.warnings();
    let ghost ws = warnings.deep_view();
    for i in 0..warnings.len()
        invariant
            ws == warnings.deep_view(),
            lines.deep_view() == told + ws.take(i as int).map_values(
                |x: FindingModel| warning_line(x),
            ),
    {
        let ghost before = lines.deep_view();
        let x = warnings[i];
        assert(ws[i as int] == x.deep_view());
        let mut line = text::concat3("- test integrity: ", x.kind, " in ");
        line.append(x.path.as_str());
        line.append(" — ");
        line.append(x.detail.as_str());
        lines.push(line);
        assert(lines.deep_view() =~= before.push(warning_line(x.deep_view())));
        assert(lines.deep_view() =~= told + ws.take(i + 1).map_values(
            |x: FindingModel| warning_line(x),
        ));
    }
    assert(ws.take(ws.len() as int) =~= ws);
    lines.push("".to_owned());
    lines.push(
        "Please resolve each point: run the checks you referred to, or correct the summary so it matches what actually happened.".to_owned(),
    );
    assert(lines.deep_view() =~= reason_lines(r.deep_view()));
    text::join(&lines, "\n")
}

// ---------------------------------------------------------------- history

/// A number of sessions in words.
pub open spec fn sessions_in_words(n: nat) -> Seq<char> {
    text::decimal_of(n) + " session"@ + text::plural(n)
}

/// What is said after reading several sessions.
pub open spec fn history_text(flagged: nat, examined: nat) -> Seq<char> {
    if flagged == 0 {
        "\nRead "@ + sessions_in_words(examined) + ". Nothing in them went unsupported.\n"@
    } else {
        sessions_in_words(flagged) + " of "@ + text::decimal_of(examined)
            + " had something worth a look.\n"@
    }
}

fn words_for_sessions(n: usize) -> (r: String)
    ensures
        r@ == sessions_in_words(n as nat),
{
    let mut s = text::decimal_usize(n);
    s.append(" session");
    s.append(text::plural_of(n));
    s
}

/// The summary of several sessions, of which some were flagged.
pub fn history_summary(flagged: usize, examined: usize) -> (r: String)
    ensures
        r@ == history_text(flagged as nat, examined as nat),
{
    if flagged == 0 {
        text::concat3(
            "\nRead ",
            words_for_sessions(examined).as_str(),
            ". Nothing in them went unsupported.\n",
        )
    } else {
        let mut s = words_for_sessions(flagged);
        s.append(" of ");
        s.append(text::decimal_usize(examined).as_str());
        s.append(" had something worth a look.\n");
        s
    }
}

// ---------------------------------------------------------------- laws

/// There is something worth blocking or failing on exactly where some claim's verdict is a problem
/// or some finding is a warning.
pub proof fn law_trouble_is_a_problem_or_a_warning(r: ReportModel)
    ensures
        is_troubled(r) <==> (exists|i: int|
            0 <= i < r.checked.len() && verify::is_trouble((#[trigger] r.checked[i]).verdict)) || (
        exists|i: int|
            0 <= i < r.findings.len() && (#[trigger] r.findings[i]).severity == Severity::Warning),
{
    let f = |c: CheckedModel|
        if verify::is_trouble(c.verdict) {
            Some(c)
        } else {
            None
        };
    let g = |x: FindingModel|
        if x.severity == Severity::Warning {
            Some(x)
        } else {
            None
        };
    lists::lemma_selected_empty(r.checked, f);
    lists::lemma_selected_empty(r.findings, g);
    if problems_of(r.checked).len() > 0 {
        let i = choose|i: int| 0 <= i < r.checked.len() && !(f(#[trigger] r.checked[i]) is None);
        assert(verify::is_trouble(r.checked[i].verdict));
    } else {
        assert forall|i: int| 0 <= i < r.checked.len() implies !verify::is_trouble(
            (#[trigger] r.checked[i]).verdict,
        ) by {
            assert(f(r.checked[i]) is None);
        }
    }
    if warnings_of(r.findings).len() > 0 {
        let i = choose|i: int| 0 <= i < r.findings.len() && !(g(#[trigger] r.findings[i]) is None);
        assert(r.findings[i].severity == Severity::Warning);
    } else {
        assert forall|i: int| 0 <= i < r.findings.len() implies (
        #[trigger] r.findings[i]).severity != Severity::Warning by {
            assert(g(r.findings[i]) is None);
        }
    }
}

/// The summary says "all supported" only of a report in which every claim is: a claim that could
/// not be checked is not counted as supported.
pub proof fn law_all_supported_means_every_claim(r: ReportModel)
    requires
        !is_troubled(r),
        r.checked.len() > 0,
    ensures
        (forall|i: int|
            0 <= i < r.checked.len() ==> (#[trigger] r.checked[i]).verdict == Verdict::Supported)
            ==> headline_of(r) == text::decimal_of(r.checked.len()) + " claim"@ + text::plural(
            r.checked.len(),
        ) + " checked, all supported"@,
        (exists|i: int|
            0 <= i < r.checked.len() && (#[trigger] r.checked[i]).verdict != Verdict::Supported)
            ==> headline_of(r) == text::decimal_of(
            (r.checked.len() - with_verdict(r.checked, Verdict::Inconclusive).len()) as nat,
        ) + " claim"@ + text::plural(
            (r.checked.len() - with_verdict(r.checked, Verdict::Inconclusive).len()) as nat,
        ) + " supported, "@ + text::decimal_of(
            with_verdict(r.checked, Verdict::Inconclusive).len(),
        ) + " could not be checked"@,
{
    law_trouble_is_a_problem_or_a_warning(r);
    let f = |c: CheckedModel|
        if c.verdict == Verdict::Inconclusive {
            Some(c)
        } else {
            None
        };
    lists::lemma_selected_empty(r.checked, f);
    if forall|i: int|
        0 <= i < r.checked.len() ==> (#[trigger] r.checked[i]).verdict == Verdict::Supported {
        assert forall|i: int| 0 <= i < r.checked.len() implies f(#[trigger] r.checked[i]) is None by {}
    }
    if exists|i: int|
        0 <= i < r.checked.len() && (#[trigger] r.checked[i]).verdict != Verdict::Supported {
        let i = choose|i: int|
            0 <= i < r.checked.len() && (#[trigger] r.checked[i]).verdict != Verdict::Supported;
        assert(f(r.checked[i]) is Some);
    }
}

/// Problems are shown first: no claim comes after one with a better verdict, and every claim is
/// there.
pub proof fn law_problems_are_shown_first(checked: Seq<CheckedModel>, i: int, j: int)
    requires
        0 <= i < j < lists::in_order(checked, shown_ahead()).len(),
    ensures
        verify::badness(lists::in_order(checked, shown_ahead())[i].verdict) >= verify::badness(
            lists::in_order(checked, shown_ahead())[j].verdict,
        ),
        lists::in_order(checked, shown_ahead()).to_multiset() == checked.to_multiset(),
{
    lists::lemma_in_order(checked, shown_ahead());
    let sorted = lists::in_order(checked, shown_ahead());
    assert(!shown_ahead()(sorted[j], sorted[i]));
}

/// The message that a block hands back names each problem, with its verdict and reason, and quotes
/// what was claimed; and it names each warning.
pub proof fn law_a_block_names_every_problem(r: ReportModel, i: int)
    ensures
        0 <= i < r.checked.len() && verify::is_trouble(r.checked[i].verdict) ==> reason_lines(
            r,
        ).contains(problem_lines(r.checked[i])[0]) && reason_lines(r).contains(
            problem_lines(r.checked[i])[1],
        ),
        0 <= i < r.findings.len() && r.findings[i].severity == Severity::Warning ==> reason_lines(
            r,
        ).contains(warning_line(r.findings[i])),
{
    let lines = reason_lines(r);
    let head = seq![
        "backcheck reviewed this session's transcript and could not verify some of what was reported:"@,
        ""@,
    ];
    let problems = problems_of(r.checked);
    let f = |c: CheckedModel| problem_lines(c);
    let told = lists::gathered(problems, f);
    let warned = warnings_of(r.findings).map_values(|x: FindingModel| warning_line(x));
    if 0 <= i < r.checked.len() && verify::is_trouble(r.checked[i].verdict) {
        let c = r.checked[i];
        let g = |c: CheckedModel|
            if verify::is_trouble(c.verdict) {
                Some(c)
            } else {
                None
            };
        assert(g(r.checked[i]) == Some(c));
        lists::lemma_selected_keeps(r.checked, g, i);
        let k = choose|k: int| 0 <= k < problems.len() && problems[k] == c;
        let own = f(problems[k]);
        assert(own[0] == problem_lines(c)[0]);
        assert(own[1] == problem_lines(c)[1]);
        assert(own.contains(problem_lines(c)[0]));
        assert(own.contains(problem_lines(c)[1]));
        lists::lemma_gathered_keeps(problems, f, k, problem_lines(c)[0]);
        lists::lemma_gathered_keeps(problems, f, k, problem_lines(c)[1]);
        let a = choose|a: int| 0 <= a < told.len() && told[a] == problem_lines(c)[0];
        let b = choose|b: int| 0 <= b < told.len() && told[b] == problem_lines(c)[1];
        assert(lines[2 + a] == problem_lines(c)[0]);
        assert(lines[2 + b] == problem_lines(c)[1]);
    }
    if 0 <= i < r.findings.len() && r.findings[i].severity == Severity::Warning {
        let x = r.findings[i];
        let g = |x: FindingModel|
            if x.severity == Severity::Warning {
                Some(x)
            } else {
                None
            };
        assert(g(r.findings[i]) == Some(x));
        lists::lemma_selected_keeps(r.findings, g, i);
        let k = choose|k: int|
            0 <= k < warnings_of(r.findings).len() && warnings_of(r.findings)[k] == x;
        assert(warned[k] == warning_line(x));
        assert(lines[2 + told.len() + k] == warning_line(x));
    }
}

/// The text holds no escape character, with which every colour code begins.
pub open spec fn is_plain(s: Seq<char>) -> bool {
    !s.contains('\x1b')
}

/// Nothing that the report quotes holds an escape character.
pub open spec fn quotes_plainly(r: ReportModel) -> bool {
    &&& is_plain(r.transcript)
    &&& r.session_id matches Some(id) ==> is_plain(id)
    &&& forall|i: int|
        0 <= i < r.checked.len() ==> is_plain((#[trigger] r.checked[i]).claim.quote) && is_plain(
            r.checked[i].reason,
        ) && (r.checked[i].evidence matches Some(e) ==> is_plain(e))
    &&& forall|i: int|
        0 <= i < r.findings.len() ==> is_plain((#[trigger] r.findings[i]).kind) && is_plain(
            r.findings[i].path,
        ) && is_plain(r.findings[i].detail) && (r.findings[i].snippet matches Some(t) ==> is_plain(
            t,
        ))
}

broadcast proof fn lemma_plain_concat(a: Seq<char>, b: Seq<char>)
    requires
        is_plain(a),
        is_plain(b),
    ensures
        #[trigger] is_plain(a + b),
{
    if (a + b).contains('\x1b') {
        let i = choose|i: int| 0 <= i < (a + b).len() && (a + b)[i] == '\x1b';
        if i < a.len() {
            assert(a[i] == '\x1b');
        } else {
            assert(b[i - a.len()] == '\x1b');
        }
    }
}

proof fn lemma_plain_words()
    ensures
        is_plain("\n"@),
        is_plain("backcheck"@),
        is_plain("  session "@),
        is_plain("  "@),
        is_plain("\n\n"@),
        is_plain("  No verifiable claims were made in this session.\n\n"@),
        is_plain("  Claims\n"@),
        is_plain("✓ supported  "@),
        is_plain("~ qualified  "@),
        is_plain("✗ unsupported"@),
        is_plain("✗ contradicted"@),
        is_plain("? inconclusive"@),
        is_plain("\n      "@),
        is_plain("“"@),
        is_plain("”"@),
        is_plain("      "@),
        is_plain("evidence: "@),
        is_plain("  ("@),
        is_plain("  Test integrity\n"@),
        is_plain("!"@),
        is_plain("·"@),
        is_plain(" "@),
        is_plain(" supported claim(s) hidden; use --verbose to show)\n\n"@),
        is_plain(" claim"@),
        is_plain(""@),
        is_plain("s"@),
        is_plain(" not fully supported"@),
        is_plain(" sign"@),
        is_plain(" the test suite was weakened"@),
        is_plain("no verifiable claims were made"@),
        is_plain(" supported, "@),
        is_plain(" could not be checked"@),
        is_plain(" checked, all supported"@),
        is_plain(", "@),
        is_plain("tests pass"@),
        is_plain("checks pass"@),
        is_plain("type check passes"@),
        is_plain("lint passes"@),
        is_plain("build succeeds"@),
        is_plain("changes committed"@),
        is_plain("changes pushed"@),
        is_plain("file written"@),
{
    reveal_strlit("\n");
    reveal_strlit("backcheck");
    reveal_strlit("  session ");
    reveal_strlit("  ");
    reveal_strlit("\n\n");
    reveal_strlit("  No verifiable claims were made in this session.\n\n");
    reveal_strlit("  Claims\n");
    reveal_strlit("✓ supported  ");
    reveal_strlit("~ qualified  ");
    reveal_strlit("✗ unsupported");
    reveal_strlit("✗ contradicted");
    reveal_strlit("? inconclusive");
    reveal_strlit("\n      ");
    reveal_strlit("“");
    reveal_strlit("”");
    reveal_strlit("      ");
    reveal_strlit("evidence: ");
    reveal_strlit("  (");
    reveal_strlit("  Test integrity\n");
    reveal_strlit("!");
    reveal_strlit("·");
    reveal_strlit(" ");
    reveal_strlit(" supported claim(s) hidden; use --verbose to show)\n\n");
    reveal_strlit(" claim");
    reveal_strlit("");
    reveal_strlit("s");
    reveal_strlit(" not fully supported");
    reveal_strlit(" sign");
    reveal_strlit(" the test suite was weakened");
    reveal_strlit("no verifiable claims were made");
    reveal_strlit(" supported, ");
    reveal_strlit(" could not be checked");
    reveal_strlit(" checked, all supported");
    reveal_strlit(", ");
    reveal_strlit("tests pass");
    reveal_strlit("checks pass");
    reveal_strlit("type check passes");
    reveal_strlit("lint passes");
    reveal_strlit("build succeeds");
    reveal_strlit("changes committed");
    reveal_strlit("changes pushed");
    reveal_strlit("file written");
}

proof fn lemma_plain_decimal(n: nat)
    ensures
        is_plain(text::decimal_of(n)),
    decreases n,
{
    if n >= 10 {
        lemma_plain_decimal(n / 10);
    }
    let s = text::decimal_of(n);
    if s.contains('\x1b') {
        let i = choose|i: int| 0 <= i < s.len() && s[i] == '\x1b';
        if n >= 10 {
            let front = text::decimal_of(n / 10);
            if i < front.len() {
                assert(front[i] == '\x1b');
            }
        }
    }
}

proof fn lemma_plain_headline(r: ReportModel)
    ensures
        is_plain(headline_of(r)),
{
    broadcast use lemma_plain_concat;

    lemma_plain_words();
    let p = problems_of(r.checked).len();
    let w = warnings_of(r.findings).len();
    let n = r.checked.len();
    let unverified = with_verdict(r.checked, Verdict::Inconclusive).len();
    lemma_plain_decimal(p);
    lemma_plain_decimal(w);
    lemma_plain_decimal(n);
    lemma_plain_decimal(unverified);
    lemma_plain_decimal((n - unverified) as nat);
}

proof fn lemma_plain_claim(c: CheckedModel, verbose: bool)
    requires
        is_plain(c.claim.quote),
        is_plain(c.reason),
        c.evidence matches Some(e) ==> is_plain(e),
    ensures
        is_plain(claim_lines(c, false, verbose)),
{
    broadcast use lemma_plain_concat;

    lemma_plain_words();
}

proof fn lemma_plain_finding(f: FindingModel)
    requires
        is_plain(f.kind),
        is_plain(f.path),
        is_plain(f.detail),
        f.snippet matches Some(t) ==> is_plain(t),
    ensures
        is_plain(finding_lines(f, false)),
{
    broadcast use lemma_plain_concat;

    lemma_plain_words();
}

proof fn lemma_plain_gathered<A>(s: Seq<A>, f: spec_fn(A) -> Seq<char>)
    requires
        forall|i: int| 0 <= i < s.len() ==> is_plain(f(#[trigger] s[i])),
    ensures
        is_plain(lists::gathered(s, f)),
    decreases s.len(),
{
    if s.len() > 0 {
        let front = s.drop_last();
        assert forall|i: int| 0 <= i < front.len() implies is_plain(f(#[trigger] front[i])) by {
            assert(front[i] == s[i]);
        }
        lemma_plain_gathered(front, f);
        assert(is_plain(f(s[s.len() - 1])));
        lemma_plain_concat(lists::gathered(front, f), f(s.last()));
    }
}

proof fn lemma_shown_name_plain(id: Seq<char>)
    requires
        text::splits_at(id, shown_bytes(id)),
        is_plain(id),
    ensures
        is_plain(text::first_bytes(id, shown_bytes(id))),
{
    text::lemma_first_bytes(id, shown_bytes(id));
    let front = text::first_bytes(id, shown_bytes(id));
    if front.contains('\x1b') {
        let i = choose|i: int| 0 <= i < front.len() && front[i] == '\x1b';
        assert(id[i] == '\x1b');
    }
}

/// Without colour a report for the terminal is plain text: it holds no escape character, unless
/// something that it quotes does.
pub proof fn law_reports_are_plain_without_color(r: ReportModel, verbose: bool)
    requires
        can_be_shown(r),
        quotes_plainly(r),
    ensures
        is_plain(terminal_text(r, false, verbose)),
{
    broadcast use lemma_plain_concat;

    lemma_plain_words();
    lemma_plain_headline(r);
    lemma_plain_decimal(with_verdict(r.checked, Verdict::Supported).len());
    match r.session_id {
        Some(id) => {
            lemma_shown_name_plain(id);
        },
        None => {},
    }
    let sorted = lists::in_order(r.checked, shown_ahead());
    lists::lemma_in_order_contains(r.checked, shown_ahead());
    let f = |c: CheckedModel| claim_lines(c, false, verbose);
    assert forall|i: int| 0 <= i < sorted.len() implies is_plain(f(#[trigger] sorted[i])) by {
        assert(sorted.contains(sorted[i]));
        let k = choose|k: int| 0 <= k < r.checked.len() && r.checked[k] == sorted[i];
        assert(is_plain(r.checked[k].claim.quote));
        lemma_plain_claim(sorted[i], verbose);
    }
    lemma_plain_gathered(sorted, f);
    let g = |x: FindingModel| finding_lines(x, false);
    assert forall|i: int| 0 <= i < r.findings.len() implies is_plain(g(#[trigger] r.findings[i])) by {
        lemma_plain_finding(r.findings[i]);
    }
    lemma_plain_gathered(r.findings, g);
}


// ---------------------------------------------------------------- what colour adds

/// What follows the first `m`, with which an escape sequence ends.
pub open spec fn after_sequence(s: Seq<char>) -> Seq<char>
    decreases s.len(),
{
    if s.len() == 0 {
        s
    } else if s[0] == 'm' {
        s.skip(1)
    } else {
        after_sequence(s.skip(1))
    }
}

/// What follows an escape sequence is no longer than what it began.
pub proof fn lemma_sequence_shrinks(s: Seq<char>)
    ensures
        after_sequence(s).len() <= s.len(),
    decreases s.len(),
{
    if s.len() > 0 && s[0] != 'm' {
        lemma_sequence_shrinks(s.skip(1));
    }
}

/// The text with every escape sequence deleted: the escape character, a bracket, and what follows
/// up to an `m`.
pub open spec fn unpainted(s: Seq<char>) -> Seq<char>
    decreases s.len(),
{
    if s.len() == 0 {
        s
    } else if s[0] == '\x1b' && s.len() > 1 && s[1] == '[' {
        proof {
            lemma_sequence_shrinks(s.skip(2));
        }
        unpainted(after_sequence(s.skip(2)))
    } else {
        seq![s[0]] + unpainted(s.skip(1))
    }
}

/// Whatever follows it, `colored` is `plain` once the escape sequences are deleted.
#[verifier::opaque]
pub open spec fn tints(colored: Seq<char>, plain: Seq<char>) -> bool {
    forall|rest: Seq<char>| #[trigger] unpainted(colored + rest) == plain + unpainted(rest)
}

broadcast proof fn lemma_tints_concat(a: Seq<char>, b: Seq<char>, p: Seq<char>, q: Seq<char>)
    requires
        tints(a, p),
        tints(b, q),
    ensures
        #[trigger] tints(a + b, p + q),
{
    reveal(tints);
    assert forall|rest: Seq<char>| #[trigger] unpainted((a + b) + rest) == (p + q) + unpainted(
        rest,
    ) by {
        assert((a + b) + rest =~= a + (b + rest));
        assert((p + q) + unpainted(rest) =~= p + (q + unpainted(rest)));
    }
}

proof fn lemma_plain_kept(s: Seq<char>, rest: Seq<char>)
    requires
        is_plain(s),
    ensures
        unpainted(s + rest) == s + unpainted(rest),
    decreases s.len(),
{
    if s.len() == 0 {
        assert(s + rest =~= rest);
        assert(s + unpainted(rest) =~= unpainted(rest));
    } else {
        assert(s.contains(s[0]));
        assert(!s.skip(1).contains('\x1b')) by {
            if s.skip(1).contains('\x1b') {
                let i = choose|i: int| 0 <= i < s.skip(1).len() && s.skip(1)[i] == '\x1b';
                assert(s[i + 1] == '\x1b');
            }
        }
        lemma_plain_kept(s.skip(1), rest);
        assert((s + rest).skip(1) =~= s.skip(1) + rest);
        assert(seq![s[0]] + (s.skip(1) + unpainted(rest)) =~= s + unpainted(rest));
    }
}

broadcast proof fn lemma_plain_tints(s: Seq<char>)
    requires
        is_plain(s),
    ensures
        #[trigger] tints(s, s),
{
    reveal(tints);
    assert forall|rest: Seq<char>| #[trigger] unpainted(s + rest) == s + unpainted(rest) by {
        lemma_plain_kept(s, rest);
    }
}

proof fn lemma_sequence_ends(code: Seq<char>, rest: Seq<char>)
    requires
        !code.contains('m'),
    ensures
        after_sequence(code + seq!['m'] + rest) == rest,
    decreases code.len(),
{
    let s = code + seq!['m'] + rest;
    if code.len() == 0 {
        assert(s.skip(1) =~= rest);
    } else {
        assert(code.contains(code[0]));
        assert(!code.skip(1).contains('m')) by {
            if code.skip(1).contains('m') {
                let i = choose|i: int| 0 <= i < code.skip(1).len() && code.skip(1)[i] == 'm';
                assert(code[i + 1] == 'm');
            }
        }
        lemma_sequence_ends(code.skip(1), rest);
        assert(s.skip(1) =~= code.skip(1) + seq!['m'] + rest);
    }
}

/// An escape sequence is deleted.
proof fn lemma_sequence_deleted(code: Seq<char>, rest: Seq<char>)
    requires
        !code.contains('m'),
    ensures
        unpainted(seq!['\x1b', '['] + code + seq!['m'] + rest) == unpainted(rest),
{
    let s = seq!['\x1b', '['] + code + seq!['m'] + rest;
    assert(s.skip(2) =~= code + seq!['m'] + rest);
    lemma_sequence_ends(code, rest);
}

proof fn lemma_painted_tints(code: Seq<char>, s: Seq<char>)
    requires
        !code.contains('m'),
        is_plain(s),
    ensures
        tints(painted(true, code, s), painted(false, code, s)),
{
    reveal(tints);
    reveal_strlit("\x1b[");
    reveal_strlit("m");
    reveal_strlit("\x1b[0m");
    let on = painted(true, code, s);
    assert forall|rest: Seq<char>| #[trigger] unpainted(on + rest) == s + unpainted(rest) by {
        let tail = seq!['\x1b', '['] + seq!['0'] + seq!['m'] + rest;
        assert(on + rest =~= seq!['\x1b', '['] + code + seq!['m'] + (s + tail));
        lemma_sequence_deleted(code, s + tail);
        lemma_plain_kept(s, tail);
        assert(!seq!['0'].contains('m'));
        lemma_sequence_deleted(seq!['0'], rest);
    }
}

broadcast proof fn lemma_bold_tints(s: Seq<char>)
    requires
        is_plain(s),
    ensures
        #[trigger] tints(bold(true, s), bold(false, s)),
{
    reveal_strlit("1");
    lemma_painted_tints("1"@, s);
}

broadcast proof fn lemma_dim_tints(s: Seq<char>)
    requires
        is_plain(s),
    ensures
        #[trigger] tints(dim(true, s), dim(false, s)),
{
    reveal_strlit("2");
    lemma_painted_tints("2"@, s);
}

broadcast proof fn lemma_red_tints(s: Seq<char>)
    requires
        is_plain(s),
    ensures
        #[trigger] tints(red(true, s), red(false, s)),
{
    reveal_strlit("31;1");
    lemma_painted_tints("31;1"@, s);
}

broadcast proof fn lemma_yellow_tints(s: Seq<char>)
    requires
        is_plain(s),
    ensures
        #[trigger] tints(yellow(true, s), yellow(false, s)),
{
    reveal_strlit("33;1");
    lemma_painted_tints("33;1"@, s);
}

broadcast proof fn lemma_green_tints(s: Seq<char>)
    requires
        is_plain(s),
    ensures
        #[trigger] tints(green(true, s), green(false, s)),
{
    reveal_strlit("32;1");
    lemma_painted_tints("32;1"@, s);
}

broadcast proof fn lemma_cyan_tints(s: Seq<char>)
    requires
        is_plain(s),
    ensures
        #[trigger] tints(cyan(true, s), cyan(false, s)),
{
    reveal_strlit("36");
    lemma_painted_tints("36"@, s);
}

broadcast group group_tints {
    lemma_tints_concat,
    lemma_plain_tints,
    lemma_bold_tints,
    lemma_dim_tints,
    lemma_red_tints,
    lemma_yellow_tints,
    lemma_green_tints,
    lemma_cyan_tints,
}

proof fn lemma_claim_tints(c: CheckedModel, verbose: bool)
    requires
        is_plain(c.claim.quote),
        is_plain(c.reason),
        c.evidence matches Some(e) ==> is_plain(e),
    ensures
        tints(claim_lines(c, true, verbose), claim_lines(c, false, verbose)),
{
    broadcast use group_tints, lemma_plain_concat;

    lemma_plain_words();
    assert(tints(verdict_mark(c.verdict, true), verdict_mark(c.verdict, false)));
    assert(is_plain(Seq::<char>::empty()));
    assert(tints(evidence_line(c.evidence, true), evidence_line(c.evidence, false)));
}

proof fn lemma_finding_tints(f: FindingModel)
    requires
        is_plain(f.kind),
        is_plain(f.path),
        is_plain(f.detail),
        f.snippet matches Some(t) ==> is_plain(t),
    ensures
        tints(finding_lines(f, true), finding_lines(f, false)),
{
    broadcast use group_tints, lemma_plain_concat;

    lemma_plain_words();
    assert(is_plain(Seq::<char>::empty()));
}

proof fn lemma_gathered_tints<A>(
    s: Seq<A>,
    f: spec_fn(A) -> Seq<char>,
    g: spec_fn(A) -> Seq<char>,
)
    requires
        forall|i: int| 0 <= i < s.len() ==> tints(f(#[trigger] s[i]), g(s[i])),
    ensures
        tints(lists::gathered(s, f), lists::gathered(s, g)),
    decreases s.len(),
{
    if s.len() > 0 {
        let front = s.drop_last();
        assert forall|i: int| 0 <= i < front.len() implies tints(f(#[trigger] front[i]), g(front[i])) by {
            assert(front[i] == s[i]);
        }
        lemma_gathered_tints(front, f, g);
        assert(tints(f(s[s.len() - 1]), g(s[s.len() - 1])));
        lemma_tints_concat(
            lists::gathered(front, f),
            f(s.last()),
            lists::gathered(front, g),
            g(s.last()),
        );
    } else {
        assert(is_plain(Seq::<char>::empty()));
        lemma_plain_tints(Seq::empty());
    }
}

proof fn lemma_header_tints(r: ReportModel)
    requires
        can_be_shown(r),
        quotes_plainly(r),
    ensures
        tints(header(r, true), header(r, false)),
{
    broadcast use group_tints, lemma_plain_concat;

    lemma_plain_words();
    assert(is_plain(Seq::<char>::empty()));
    match r.session_id {
        Some(id) => {
            lemma_shown_name_plain(id);
        },
        None => {},
    }
    assert(tints(session_note(r.session_id, true), session_note(r.session_id, false)));
}

/// Colour never changes what a report says: once the escape sequences are deleted, the coloured
/// text is the plain one, unless something that the report quotes holds an escape character.
pub proof fn law_color_never_changes_the_text(r: ReportModel, verbose: bool)
    requires
        can_be_shown(r),
        quotes_plainly(r),
    ensures
        unpainted(terminal_text(r, true, verbose)) == terminal_text(r, false, verbose),
{
    broadcast use group_tints, lemma_plain_concat;

    lemma_plain_words();
    lemma_plain_headline(r);
    lemma_header_tints(r);
    let supported = with_verdict(r.checked, Verdict::Supported).len();
    lemma_plain_decimal(supported);
    assert(is_plain(Seq::<char>::empty()));
    assert(tints(hidden_note(supported, true, verbose), hidden_note(supported, false, verbose)));
    let sorted = lists::in_order(r.checked, shown_ahead());
    lists::lemma_in_order_contains(r.checked, shown_ahead());
    let f = |c: CheckedModel| claim_lines(c, true, verbose);
    let g = |c: CheckedModel| claim_lines(c, false, verbose);
    assert forall|i: int| 0 <= i < sorted.len() implies tints(f(#[trigger] sorted[i]), g(sorted[i])) by {
        assert(sorted.contains(sorted[i]));
        let k = choose|k: int| 0 <= k < r.checked.len() && r.checked[k] == sorted[i];
        assert(is_plain(r.checked[k].claim.quote));
        lemma_claim_tints(sorted[i], verbose);
    }
    lemma_gathered_tints(sorted, f, g);
    let x = |f: FindingModel| finding_lines(f, true);
    let y = |f: FindingModel| finding_lines(f, false);
    assert forall|i: int| 0 <= i < r.findings.len() implies tints(
        x(#[trigger] r.findings[i]),
        y(r.findings[i]),
    ) by {
        lemma_finding_tints(r.findings[i]);
    }
    lemma_gathered_tints(r.findings, x, y);
    assert(tints(
        claims_section(r.checked, true, verbose),
        claims_section(r.checked, false, verbose),
    ));
    assert(tints(findings_section(r.findings, true), findings_section(r.findings, false)));
    assert(tints(footer(r, true), footer(r, false)));
    let on = terminal_text(r, true, verbose);
    let off = terminal_text(r, false, verbose);
    assert(tints(on, off));
    reveal(tints);
    assert(unpainted(on + Seq::<char>::empty()) == off + unpainted(Seq::<char>::empty()));
    assert(on + Seq::<char>::empty() =~= on);
    assert(off + unpainted(Seq::<char>::empty()) =~= off);
}

// ---------------------------------------------------------------- what is reported

/// The problems of a report are its claims that are unsupported, contradicted or qualified, and its
/// warnings the findings of that weight, each in the order of the report; there is trouble where
/// there is one of either.
pub proof fn law_what_the_problems_are(r: ReportModel)
    ensures
        problems_of(r.checked) == lists::kept(
            r.checked,
            |c: CheckedModel|
                c.verdict == Verdict::Unsupported || c.verdict == Verdict::Contradicted || c.verdict
                    == Verdict::Qualified,
        ),
        warnings_of(r.findings) == lists::kept(
            r.findings,
            |f: FindingModel| f.severity == Severity::Warning,
        ),
        is_troubled(r) <==> problems_of(r.checked).len() > 0 || warnings_of(r.findings).len() > 0,
{
    lists::lemma_selected_is_kept(
        r.checked,
        |c: CheckedModel|
            if verify::is_trouble(c.verdict) {
                Some(c)
            } else {
                None
            },
        |c: CheckedModel|
            c.verdict == Verdict::Unsupported || c.verdict == Verdict::Contradicted || c.verdict
                == Verdict::Qualified,
    );
    lists::lemma_selected_is_kept(
        r.findings,
        |f: FindingModel|
            if f.severity == Severity::Warning {
                Some(f)
            } else {
                None
            },
        |f: FindingModel| f.severity == Severity::Warning,
    );
}

/// What the headline says. Problems and warnings are counted; without either, claims that could not
/// be checked are set apart from those that are supported.
pub proof fn law_what_the_headline_says(r: ReportModel)
    ensures
        ({
            let p = problems_of(r.checked).len();
            let w = warnings_of(r.findings).len();
            let n = r.checked.len();
            let open = lists::kept(
                r.checked,
                |c: CheckedModel| c.verdict == Verdict::Inconclusive,
            ).len();
            let s = |k: nat|
                if k == 1 {
                    ""@
                } else {
                    "s"@
                };
            let claims = text::decimal_of(p) + " claim"@ + s(p) + " not fully supported"@;
            let signs = text::decimal_of(w) + " sign"@ + s(w) + " the test suite was weakened"@;
            let h = headline_of(r);
            &&& p > 0 && w > 0 ==> h == claims + ", "@ + signs
            &&& p > 0 && w == 0 ==> h == claims
            &&& p == 0 && w > 0 ==> h == signs
            &&& p == 0 && w == 0 && n == 0 ==> h == "no verifiable claims were made"@
            &&& p == 0 && w == 0 && n > 0 && open == 0 ==> h == text::decimal_of(n) + " claim"@ + s(
                n,
            ) + " checked, all supported"@
            &&& p == 0 && w == 0 && n > 0 && open > 0 ==> h == text::decimal_of((n - open) as nat)
                + " claim"@ + s((n - open) as nat) + " supported, "@ + text::decimal_of(open)
                + " could not be checked"@
        }),
{
    let f = |c: CheckedModel|
        if c.verdict == Verdict::Inconclusive {
            Some(c)
        } else {
            None
        };
    lists::lemma_selected_is_kept(
        r.checked,
        f,
        |c: CheckedModel| c.verdict == Verdict::Inconclusive,
    );
    lists::lemma_selected_is_kept(
        r.checked,
        |c: CheckedModel|
            if c.verdict == Verdict::Inconclusive {
                Some(c)
            } else {
                None
            },
        |c: CheckedModel| c.verdict == Verdict::Inconclusive,
    );
}

/// What is shown of a check that was seen.
pub proof fn law_what_is_seen_of_a_run(run: CheckRunModel)
    ensures
        ({
            let s = seen_of(run);
            &&& s.runner == run.runner
            &&& s.detail == run.evidence_line
            &&& s.kind == runners::kind_label(run.kind)
            &&& run.outcome == Outcome::Passed ==> s.outcome == "passed"@
            &&& run.outcome == Outcome::Failed ==> s.outcome == "failed"@
            &&& run.outcome == Outcome::DidNotComplete ==> s.outcome == "did not complete"@
            &&& run.outcome == Outcome::Unknown ==> s.outcome == "unreadable"@
        }),
{
}

/// What the document holds: the session, what the summary counts, every claim with its verdict,
/// every finding, every check that was seen and every command that was not recognised, in the order
/// of the report.
pub proof fn law_what_the_document_holds(r: ReportModel, i: int)
    ensures
        ({
            let maybe = |s: Option<Seq<char>>|
                match s {
                    Some(t) => JsonModel::Text(t),
                    None => JsonModel::Null,
                };
            let count = |n: nat| JsonModel::Number(text::decimal_of(n));
            let doc = report_doc(r);
            &&& doc is Object
            &&& ({
                let ms = doc->Object_0;
                &&& ms.len() == 7
                &&& ms[0] == ("session_id"@, maybe(r.session_id))
                &&& ms[1] == ("transcript"@, JsonModel::Text(r.transcript))
                &&& ms[2] == (
                    "summary"@,
                    JsonModel::Object(
                        seq![
                            ("claims_checked"@, count(r.checked.len())),
                            ("problems"@, count(problems_of(r.checked).len())),
                            ("warnings"@, count(warnings_of(r.findings).len())),
                            ("check_runs_seen"@, count(r.runs_seen as nat)),
                            ("headline"@, JsonModel::Text(headline_of(r))),
                        ],
                    ),
                )
                &&& ms[3].0 == "claims"@ && ms[3].1 is Array
                &&& ms[3].1->Array_0.len() == r.checked.len()
                &&& 0 <= i < r.checked.len() ==> ms[3].1->Array_0[i] == JsonModel::Object(
                    seq![
                        ("kind"@, JsonModel::Text(claims::claim_label(r.checked[i].claim.kind))),
                        (
                            "verdict"@,
                            JsonModel::Text(verify::verdict_label(r.checked[i].verdict)),
                        ),
                        ("reason"@, JsonModel::Text(r.checked[i].reason)),
                        ("quote"@, JsonModel::Text(r.checked[i].claim.quote)),
                        ("in_final_message"@, JsonModel::Bool(r.checked[i].claim.in_summary)),
                        ("evidence"@, maybe(r.checked[i].evidence)),
                    ],
                )
                &&& ms[4].0 == "test_integrity"@ && ms[4].1 is Array
                &&& ms[4].1->Array_0.len() == r.findings.len()
                &&& 0 <= i < r.findings.len() ==> ms[4].1->Array_0[i] == JsonModel::Object(
                    seq![
                        (
                            "severity"@,
                            JsonModel::Text(
                                if r.findings[i].severity == Severity::Warning {
                                    "warning"@
                                } else {
                                    "notice"@
                                },
                            ),
                        ),
                        ("kind"@, JsonModel::Text(r.findings[i].kind)),
                        ("path"@, JsonModel::Text(r.findings[i].path)),
                        ("detail"@, JsonModel::Text(r.findings[i].detail)),
                        ("snippet"@, maybe(r.findings[i].snippet)),
                    ],
                )
                &&& ms[5].0 == "checks_seen"@ && ms[5].1 is Array
                &&& ms[5].1->Array_0.len() == r.seen.len()
                &&& 0 <= i < r.seen.len() ==> ms[5].1->Array_0[i] == JsonModel::Object(
                    seq![
                        ("kind"@, JsonModel::Text(r.seen[i].kind)),
                        ("runner"@, JsonModel::Text(r.seen[i].runner)),
                        ("outcome"@, JsonModel::Text(r.seen[i].outcome)),
                        ("evidence"@, maybe(r.seen[i].detail)),
                    ],
                )
                &&& ms[6].0 == "unrecognised_commands"@ && ms[6].1 is Array
                &&& ms[6].1->Array_0.len() == r.unrecognised.len()
                &&& 0 <= i < r.unrecognised.len() ==> ms[6].1->Array_0[i] == JsonModel::Text(
                    r.unrecognised[i],
                )
            })
        }),
{
}

/// Color is used where it was not switched off, by flag or by environment, and the terminal is
/// known and not a dumb one.
pub proof fn law_when_color_is_used(no_color: bool, no_color_set: bool, term: Option<Seq<char>>)
    ensures
        wants_color(no_color, no_color_set, term) <==> !no_color && !no_color_set && term is Some
            && term->0 != "dumb"@,
{
}

/// Which color shows what: the verdicts, the weight of a finding, and the headline by whether there
/// is trouble.
pub proof fn law_what_the_colors_are(s: Seq<char>)
    ensures
        bold(true, s) == "\x1b["@ + "1"@ + "m"@ + s + "\x1b[0m"@,
        dim(true, s) == "\x1b["@ + "2"@ + "m"@ + s + "\x1b[0m"@,
        red(true, s) == "\x1b["@ + "31;1"@ + "m"@ + s + "\x1b[0m"@,
        yellow(true, s) == "\x1b["@ + "33;1"@ + "m"@ + s + "\x1b[0m"@,
        green(true, s) == "\x1b["@ + "32;1"@ + "m"@ + s + "\x1b[0m"@,
        cyan(true, s) == "\x1b["@ + "36"@ + "m"@ + s + "\x1b[0m"@,
        verdict_mark(Verdict::Supported, true) == green(true, "✓ supported  "@),
        verdict_mark(Verdict::Qualified, true) == yellow(true, "~ qualified  "@),
        verdict_mark(Verdict::Unsupported, true) == red(true, "✗ unsupported"@),
        verdict_mark(Verdict::Contradicted, true) == red(true, "✗ contradicted"@),
        verdict_mark(Verdict::Inconclusive, true) == dim(true, "? inconclusive"@),
        outcome_mark("passed"@, true) == green(true, "passed          "@),
        outcome_mark("failed"@, true) == red(true, "failed          "@),
        outcome_mark("did not complete"@, true) == yellow(true, "did not complete"@),
        outcome_mark("unreadable"@, true) == dim(true, "unreadable      "@),
{
    reveal_strlit("passed");
    reveal_strlit("failed");
    reveal_strlit("did not complete");
    reveal_strlit("unreadable");
    assert("passed"@[0] == 'p');
    assert("failed"@[0] == 'f');
}

/// How a claim is shown: its verdict, its kind, its quote, the reason and the evidence. Only a
/// supported claim is hidden, and only where not everything was asked for.
pub proof fn law_how_a_claim_is_shown(c: CheckedModel, verbose: bool)
    ensures
        ({
            let mark = match c.verdict {
                Verdict::Supported => "✓ supported  "@,
                Verdict::Qualified => "~ qualified  "@,
                Verdict::Unsupported => "✗ unsupported"@,
                Verdict::Contradicted => "✗ contradicted"@,
                Verdict::Inconclusive => "? inconclusive"@,
            };
            let evidence = match c.evidence {
                Some(e) => "      "@ + ("evidence: "@ + e) + "\n"@,
                None => Seq::empty(),
            };
            claim_lines(c, false, verbose) == (if c.verdict == Verdict::Supported && !verbose {
                Seq::empty()
            } else {
                "  "@ + mark + "  "@ + claims::claim_label(c.claim.kind) + "\n      "@ + ("“"@
                    + c.claim.quote + "”"@) + "\n      "@ + c.reason + "\n"@ + evidence + "\n"@
            })
        }),
{
}

/// How a finding is shown: its weight, its kind, the file, the detail and the snippet.
pub proof fn law_how_a_finding_is_shown(f: FindingModel)
    ensures
        ({
            let mark = if f.severity == Severity::Warning {
                "!"@
            } else {
                "·"@
            };
            let snippet = match f.snippet {
                Some(s) => "      "@ + s + "\n"@,
                None => Seq::empty(),
            };
            finding_lines(f, false) == "  "@ + mark + " "@ + f.kind + "  "@ + f.path + "\n      "@
                + f.detail + "\n"@ + snippet + "\n"@
        }),
{
}

/// How the whole is shown: the session and the file, the claims from the worst verdict to the best,
/// how many are hidden, the findings, and the headline at the end. A report with nothing in it says
/// so.
pub proof fn law_how_a_report_is_shown(r: ReportModel, verbose: bool)
    ensures
        ({
            let ahead = |a: CheckedModel, b: CheckedModel|
                verify::badness(a.verdict) > verify::badness(b.verdict);
            let supported = lists::kept(
                r.checked,
                |c: CheckedModel| c.verdict == Verdict::Supported,
            ).len();
            let session = match r.session_id {
                Some(id) => "  session "@ + text::first_bytes(
                    id,
                    if text::byte_len_of(id) < 8 {
                        text::byte_len_of(id) as int
                    } else {
                        8
                    },
                ),
                None => Seq::empty(),
            };
            let top = "\n"@ + "backcheck"@ + session + "\n"@ + ("  "@ + r.transcript + "\n\n"@);
            let shown = if r.checked.len() == 0 {
                Seq::empty()
            } else {
                "  Claims\n"@ + lists::gathered(
                    lists::in_order(r.checked, ahead),
                    |c: CheckedModel| claim_lines(c, false, verbose),
                ) + (if !verbose && supported > 0 {
                    "  ("@ + text::decimal_of(supported)
                        + " supported claim(s) hidden; use --verbose to show)\n\n"@
                } else {
                    Seq::empty()
                })
            };
            let found = if r.findings.len() == 0 {
                Seq::empty()
            } else {
                "  Test integrity\n"@ + lists::gathered(
                    r.findings,
                    |f: FindingModel| finding_lines(f, false),
                )
            };
            terminal_text(r, false, verbose) == (if r.checked.len() == 0 && r.findings.len() == 0 {
                top + "  No verifiable claims were made in this session.\n\n"@
            } else {
                top + shown + found + (("  "@ + headline_of(r) + "\n"@) + "\n"@)
            })
        }),
{
    lists::lemma_selected_is_kept(
        r.checked,
        |c: CheckedModel|
            if c.verdict == Verdict::Supported {
                Some(c)
            } else {
                None
            },
        |c: CheckedModel| c.verdict == Verdict::Supported,
    );
    let v = Verdict::Supported;
    lists::lemma_selected_is_kept(
        r.checked,
        |c: CheckedModel|
            if c.verdict == v {
                Some(c)
            } else {
                None
            },
        |c: CheckedModel| c.verdict == Verdict::Supported,
    );
    assert(shown_ahead() =~= (|a: CheckedModel, b: CheckedModel|
        verify::badness(a.verdict) > verify::badness(b.verdict)));
}

/// How the checks that were seen are shown, and at most fifteen of the commands that were not
/// recognised.
pub proof fn law_how_an_explanation_is_shown(r: ReportModel, s: SeenRunModel)
    ensures
        ({
            let mark = if s.outcome == "passed"@ {
                "passed          "@
            } else if s.outcome == "failed"@ {
                "failed          "@
            } else if s.outcome == "did not complete"@ {
                "did not complete"@
            } else {
                "unreadable      "@
            };
            let detail = match s.detail {
                Some(d) => "        "@ + d + "\n"@,
                None => Seq::empty(),
            };
            seen_lines(s, false) == "    "@ + mark + "  "@ + s.runner + " ("@ + s.kind + ")\n"@
                + detail
        }),
        ({
            let none = if r.seen.len() == 0 {
                "    no checks recognised in this session\n"@
            } else {
                Seq::empty()
            };
            let first = if r.unrecognised.len() > 15 {
                r.unrecognised.take(15)
            } else {
                r.unrecognised
            };
            let missed = if r.unrecognised.len() == 0 {
                Seq::empty()
            } else {
                "\n"@ + "  Ran, but not recognised as a check\n"@
                    + "    If one of these is a real check, backcheck is missing a runner for it.\n"@
                    + lists::gathered(first, |c: Seq<char>| "    "@ + c + "\n"@) + (
                if r.unrecognised.len() > 15 {
                    "    (+"@ + text::decimal_of((r.unrecognised.len() - 15) as nat) + " more)\n"@
                } else {
                    Seq::empty()
                })
            };
            explanation_text(r, false) == "  What backcheck saw\n"@ + none + lists::gathered(
                r.seen,
                |s: SeenRunModel| seen_lines(s, false),
            ) + missed + "\n"@
        }),
{
    let f = |c: Seq<char>| command_line(c, false);
    let g = |c: Seq<char>| "    "@ + c + "\n"@;
    assert(f =~= g);
    if r.unrecognised.len() <= 15 {
        assert(r.unrecognised.take(r.unrecognised.len() as int) =~= r.unrecognised);
    }
}

/// What is handed back to the agent: what could not be verified, a line with the claim, its verdict
/// and the reason for each problem and one with the quote, then a line for each warning, and what
/// is asked of it.
pub proof fn law_what_the_agent_is_told(r: ReportModel)
    ensures
        ({
            let problem = |c: CheckedModel|
                seq![
                    "- "@ + claims::claim_label(c.claim.kind) + " ("@ + verify::verdict_label(
                        c.verdict,
                    ) + "): "@ + c.reason,
                    "  claimed: “"@ + c.claim.quote + "”"@,
                ];
            let warning = |f: FindingModel|
                "- test integrity: "@ + f.kind + " in "@ + f.path + " — "@ + f.detail;
            hook_reason(r) == text::joined(
                seq![
                    "backcheck reviewed this session's transcript and could not verify some of what was reported:"@,
                    ""@,
                ] + lists::gathered(problems_of(r.checked), problem) + warnings_of(
                    r.findings,
                ).map_values(warning) + seq![
                    ""@,
                    "Please resolve each point: run the checks you referred to, or correct the summary so it matches what actually happened."@,
                ],
                "\n"@,
            )
        }),
{
    let problem = |c: CheckedModel|
        seq![
            "- "@ + claims::claim_label(c.claim.kind) + " ("@ + verify::verdict_label(c.verdict)
                + "): "@ + c.reason,
            "  claimed: “"@ + c.claim.quote + "”"@,
        ];
    let warning = |f: FindingModel|
        "- test integrity: "@ + f.kind + " in "@ + f.path + " — "@ + f.detail;
    assert((|c: CheckedModel| problem_lines(c)) =~= problem);
    assert((|f: FindingModel| warning_line(f)) =~= warning);
}

/// What a look over many sessions comes to.
pub proof fn law_what_a_history_comes_to(flagged: nat, examined: nat)
    ensures
        ({
            let s = |n: nat|
                if n == 1 {
                    ""@
                } else {
                    "s"@
                };
            &&& flagged == 0 ==> history_text(flagged, examined) == "\nRead "@ + (text::decimal_of(
                examined,
            ) + " session"@ + s(examined)) + ". Nothing in them went unsupported.\n"@
            &&& flagged > 0 ==> history_text(flagged, examined) == text::decimal_of(flagged)
                + " session"@ + s(flagged) + " of "@ + text::decimal_of(examined)
                + " had something worth a look.\n"@
        }),
{
}

} // verus!
