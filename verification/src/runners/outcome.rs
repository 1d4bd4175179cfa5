//! Reading a runner's verdict out of what it printed.
//!
//! Transcripts carry no exit codes, so each supported tool needs its own summary line
//! understood. Every reading here is [`Outcome::Unknown`] rather than a guess: a wrong
//! "verified" is far more damaging than an honest "could not tell".
//!
//! For each runner one function decides, from what its expressions matched and from the output.
//! [`parse_outcome`] does the matching and picks the function.

use vstd::prelude::*;

use crate::lists;
use crate::pattern;
use crate::pattern::Pattern;
use crate::runners::{CheckKind, Outcome};
use crate::text;

verus! {

/// What a run's output says: the outcome, the counts where they were printed, and the line that
/// supports it.
#[derive(Debug)]
pub struct Reading {
    pub outcome: Outcome,
    pub passed: Option<u32>,
    pub failed: Option<u32>,
    pub evidence: Option<String>,
}

/// What a [`Reading`] stands for.
#[verifier::ext_equal]
pub struct ReadingModel {
    pub outcome: Outcome,
    pub passed: Option<u32>,
    pub failed: Option<u32>,
    pub evidence: Option<Seq<char>>,
}

impl DeepView for Reading {
    type V = ReadingModel;

    open spec fn deep_view(&self) -> ReadingModel {
        ReadingModel {
            outcome: self.outcome,
            passed: self.passed,
            failed: self.failed,
            evidence: self.evidence.deep_view(),
        }
    }
}

/// A pass, with the number of failures that goes with it and the line that shows it.
pub open spec fn passes(failed: Option<u32>, evidence: Option<Seq<char>>) -> ReadingModel {
    ReadingModel { outcome: Outcome::Passed, passed: None, failed, evidence }
}

/// A failure, with the number of failures where it is known and the line that shows it.
pub open spec fn fails(failed: Option<u32>, evidence: Option<Seq<char>>) -> ReadingModel {
    ReadingModel { outcome: Outcome::Failed, passed: None, failed, evidence }
}

/// Nothing can be told.
pub open spec fn unreadable() -> ReadingModel {
    ReadingModel { outcome: Outcome::Unknown, passed: None, failed: None, evidence: None }
}

fn pass(failed: Option<u32>, evidence: Option<String>) -> (r: Reading)
    ensures
        r.deep_view() == passes(failed, evidence.deep_view()),
{
    Reading { outcome: Outcome::Passed, passed: None, failed, evidence }
}

fn fail(failed: Option<u32>, evidence: Option<String>) -> (r: Reading)
    ensures
        r.deep_view() == fails(failed, evidence.deep_view()),
{
    Reading { outcome: Outcome::Failed, passed: None, failed, evidence }
}

fn unread() -> (r: Reading)
    ensures
        r.deep_view() == unreadable(),
{
    Reading { outcome: Outcome::Unknown, passed: None, failed: None, evidence: None }
}

// ---------------------------------------------------------------- lines of the output

/// The last line that satisfies `p`, trimmed.
pub open spec fn last_line(output: Seq<char>, p: spec_fn(Seq<char>) -> bool) -> Option<Seq<char>> {
    match lists::last_such(text::lines_of(output), p) {
        Some(l) => Some(text::trimmed(l)),
        None => None,
    }
}

/// The lines that contain `needle`, in whatever case.
pub open spec fn mentions(needle: Seq<char>) -> spec_fn(Seq<char>) -> bool {
    |l: Seq<char>| text::has(text::lowered(l), needle)
}

/// The lines that the expression matches.
pub open spec fn matches_line(p: Seq<char>) -> spec_fn(Seq<char>) -> bool {
    |l: Seq<char>| pattern::regex_is_match(p, l)
}

/// The lines that hold more than white space.
pub open spec fn is_filled() -> spec_fn(Seq<char>) -> bool {
    |l: Seq<char>| text::trimmed(l).len() > 0
}

/// The lines in which cargo reports its own progress.
pub open spec fn is_progress() -> spec_fn(Seq<char>) -> bool {
    |l: Seq<char>|
        {
            let t = text::front_trimmed(l, text::whites());
            text::begins(t, "Finished"@) || text::begins(t, "Compiling"@)
        }
}

/// The last line that mentions `needle`.
pub open spec fn line_with(output: Seq<char>, needle: Seq<char>) -> Option<Seq<char>> {
    last_line(output, mentions(needle))
}

/// The first of two that is there.
pub open spec fn either(a: Option<Seq<char>>, b: Option<Seq<char>>) -> Option<Seq<char>> {
    if a is Some {
        a
    } else {
        b
    }
}

/// The last line of which `f` holds, trimmed, `f` deciding `p`.
fn last_line_such<F: Fn(&str) -> bool>(
    output: &str,
    f: F,
    Ghost(p): Ghost<spec_fn(Seq<char>) -> bool>,
) -> (r: Option<String>)
    requires
        forall|l: &str| call_requires(f, (l,)),
        forall|l: &str, b: bool| call_ensures(f, (l,), b) ==> b == p(l@),
    ensures
        r.deep_view() == last_line(output@, p),
{
    let lines = text::lines(output);
    let ghost all = lines.deep_view();
    let mut i: usize = lines.len();
    assert(all.take(all.len() as int) =~= all);
    while i > 0
        invariant
            i <= lines.len(),
            all == lines.deep_view(),
            all == text::lines_of(output@),
            forall|l: &str| call_requires(f, (l,)),
            forall|l: &str, b: bool| call_ensures(f, (l,), b) ==> b == p(l@),
            lists::last_such(all, p) == lists::last_such(all.take(i as int), p),
        decreases i,
    {
        let l = lines[i - 1].as_str();
        assert(all.take(i as int).last() == l@);
        assert(all.take(i as int).drop_last() =~= all.take(i - 1));
        if f(l) {
            return Some(text::trim(l));
        }
        i = i - 1;
    }
    None
}

/// The last line that mentions `needle`, in whatever case.
pub fn line_containing(output: &str, needle: &str) -> (r: Option<String>)
    ensures
        r.deep_view() == line_with(output@, needle@),
{
    let holds = |l: &str| -> (b: bool)
        ensures
            b == text::has(text::lowered(l@), needle@),
    {
        text::contains(text::lowercase(l).as_str(), needle)
    };
    last_line_such(output, holds, Ghost(mentions(needle@)))
}

/// The last line that the expression matches.
fn line_matching(output: &str, pat: &Pattern) -> (r: Option<String>)
    ensures
        r.deep_view() == last_line(output@, matches_line(pat@)),
{
    let holds = |l: &str| -> (b: bool)
        ensures
            b == pattern::regex_is_match(pat@, l@),
    {
        pat.is_match(l)
    };
    last_line_such(output, holds, Ghost(matches_line(pat@)))
}

/// The last line that holds more than white space.
fn last_filled_line(output: &str) -> (r: Option<String>)
    ensures
        r.deep_view() == last_line(output@, is_filled()),
{
    let holds = |l: &str| -> (b: bool)
        ensures
            b == (text::trimmed(l@).len() > 0),
    {
        !text::is_blank(l)
    };
    last_line_such(output, holds, Ghost(is_filled()))
}

/// Does cargo report its own progress in this line?
fn shows_progress(l: &str) -> (r: bool)
    ensures
        r == is_progress()(l@),
{
    let t = text::trim_start(l);
    text::starts_with(t.as_str(), "Finished") || text::starts_with(t.as_str(), "Compiling")
}

/// The last line in which cargo reports its own progress.
fn last_progress_line(output: &str) -> (r: Option<String>)
    ensures
        r.deep_view() == last_line(output@, is_progress()),
{
    let holds = |l: &str| -> (b: bool)
        ensures
            b == is_progress()(l@),
    {
        shows_progress(l)
    };
    last_line_such(output, holds, Ghost(is_progress()))
}

/// The first of two that is there.
fn or_else(a: Option<String>, b: Option<String>) -> (r: Option<String>)
    ensures
        r.deep_view() == either(a.deep_view(), b.deep_view()),
{
    match a {
        Some(s) => Some(s),
        None => b,
    }
}

// ---------------------------------------------------------------- numbers in the output

/// The number in group `n` of a match.
pub open spec fn number_of(found: Option<Seq<Option<Seq<char>>>>, n: int) -> Option<u32> {
    match found {
        Some(groups) => text::u32_of(pattern::group_of(groups, n)),
        None => None,
    }
}

/// The number in group `n` of a match.
pub fn number_at(found: &Option<Vec<Option<String>>>, n: usize) -> (r: Option<u32>)
    ensures
        r == number_of(found.deep_view(), n as int),
{
    match found {
        Some(groups) => {
            let t = pattern::group(groups, n);
            text::parse_u32(t.as_str())
        },
        None => None,
    }
}

/// `a`, or `b` where there is no `a`.
pub open spec fn number_or(a: Option<u32>, b: u32) -> u32 {
    match a {
        Some(n) => n,
        None => b,
    }
}

fn number_else(a: Option<u32>, b: u32) -> (r: u32)
    ensures
        r == number_or(a, b),
{
    match a {
        Some(n) => n,
        None => b,
    }
}

// ---------------------------------------------------------------- the fallback

/// Wordings that only a failure has.
pub open spec fn fail_markers() -> Seq<Seq<char>> {
    seq!["error:"@, "failed"@, "failure"@, "exception"@, "panic:"@, "traceback"@, "error ts"@]
}

/// Wordings that only a success has, for the kind of check that they can vouch for. A build
/// finishing says nothing about a linter, so "built in" does not satisfy a lint check.
pub open spec fn pass_markers(kind: CheckKind) -> Seq<Seq<char>> {
    let shared = seq![
        "all checks passed"@,
        "no issues found"@,
        "0 problems"@,
        "0 errors"@,
    ];
    shared + (match kind {
        CheckKind::Build => seq![
            "build succeeded"@,
            "compiled successfully"@,
            "built in "@,
            "success"@,
        ],
        CheckKind::Test => Seq::empty(),
        _ => seq!["success"@],
    })
}

/// Wordings that a check of this kind alone has, so that they count in a stream that other commands
/// printed to as well.
pub open spec fn own_words(kind: CheckKind) -> Seq<Seq<char>> {
    match kind {
        CheckKind::Build => seq!["build succeeded"@, "compiled successfully"@, "built in "@],
        _ => Seq::empty(),
    }
}

/// The first of the markers that `lower` contains.
pub open spec fn marker_in(markers: Seq<Seq<char>>, lower: Seq<char>) -> Option<Seq<char>> {
    lists::first_such(markers, |m: Seq<char>| text::has(lower, m))
}

/// The cautious reading. `marked` says that the output holds a hand-written success marker.
pub open spec fn cautious(
    output: Seq<char>,
    kind: CheckKind,
    exclusive: bool,
    marked: bool,
) -> ReadingModel {
    let lower = text::lowered(output);
    if kind != CheckKind::Test && exclusive && marked {
        passes(Some(0), last_line(output, is_filled()))
    } else {
        match marker_in(pass_markers(kind), lower) {
            Some(m) if exclusive => passes(None, line_with(output, m)),
            Some(_) => match marker_in(own_words(kind), lower) {
                Some(m) => passes(None, line_with(output, m)),
                None => unreadable(),
            },
            None => match marker_in(fail_markers(), lower) {
                Some(m) => fails(None, line_with(output, m)),
                None => if text::trimmed(output).len() == 0 && kind != CheckKind::Test {
                    passes(None, None)
                } else {
                    unreadable()
                },
            },
        }
    }
}

/// The first of the markers that `lower` contains.
fn first_marker(markers: &Vec<&'static str>, lower: &str) -> (r: Option<&'static str>)
    ensures
        r.deep_view() == marker_in(markers.deep_view(), lower@),
{
    let ghost all = markers.deep_view();
    let ghost p = |m: Seq<char>| text::has(lower@, m);
    let mut i: usize = 0;
    assert(all.skip(0) =~= all);
    while i < markers.len()
        invariant
            i <= markers.len(),
            all == markers.deep_view(),
            p == (|m: Seq<char>| text::has(lower@, m)),
            lists::first_such(all, p) == lists::first_such(all.skip(i as int), p),
        decreases markers.len() - i,
    {
        assert(all.skip(i as int)[0] == markers@[i as int]@);
        assert(all.skip(i as int).skip(1) =~= all.skip(i + 1));
        if text::contains(lower, markers[i]) {
            return Some(markers[i]);
        }
        i = i + 1;
    }
    None
}

fn markers_of_pass(kind: CheckKind) -> (r: Vec<&'static str>)
    ensures
        r.deep_view() == pass_markers(kind),
{
    let mut out: Vec<&'static str> = Vec::new();
    out.push("all checks passed");
    out.push("no issues found");
    out.push("0 problems");
    out.push("0 errors");
    match kind {
        CheckKind::Build => {
            out.push("build succeeded");
            out.push("compiled successfully");
            out.push("built in ");
            out.push("success");
        },
        CheckKind::Test => {},
        _ => {
            out.push("success");
        },
    }
    assert(out.deep_view() =~= pass_markers(kind));
    out
}

fn words_of_its_own(kind: CheckKind) -> (r: Vec<&'static str>)
    ensures
        r.deep_view() == own_words(kind),
{
    let mut out: Vec<&'static str> = Vec::new();
    if kind == CheckKind::Build {
        out.push("build succeeded");
        out.push("compiled successfully");
        out.push("built in ");
    }
    assert(out.deep_view() =~= own_words(kind));
    out
}

fn markers_of_failure() -> (r: Vec<&'static str>)
    ensures
        r.deep_view() == fail_markers(),
{
    let mut out: Vec<&'static str> = Vec::new();
    out.push("error:");
    out.push("failed");
    out.push("failure");
    out.push("exception");
    out.push("panic:");
    out.push("traceback");
    out.push("error ts");
    assert(out.deep_view() =~= fail_markers());
    out
}

/// Conservative fallback: only call it a pass or a fail on unambiguous signals.
///
/// `exclusive` says whether this text is known to have come from this command alone. When a
/// chain like `pytest && ruff check .` cannot be split, every reading sees the same stream, and
/// a weak signal there belongs to whichever tool actually printed it. Reading pytest's
/// "1172 passed" as proof that ruff is happy is exactly the mistake this guards against.
///
/// `marked` says that the text holds a hand-written success marker (`&& echo "RUFF CLEAN"`) and
/// no word of failure. The marker is only trustworthy for a non-test check, where the tool itself
/// is silent on success, and only when the text is known to be this command's own.
pub fn judge_generic(output: &str, kind: CheckKind, exclusive: bool, marked: bool) -> (r: Reading)
    ensures
        r.deep_view() == cautious(output@, kind, exclusive, marked),
{
    let lower = text::lowercase(output);
    if kind != CheckKind::Test && exclusive && marked {
        return pass(Some(0), last_filled_line(output));
    }
    let good = markers_of_pass(kind);
    if let Some(m) = first_marker(&good, lower.as_str()) {
        if exclusive {
            return pass(None, line_containing(output, m));
        }
        // A word of success in a shared stream may be any tool's, unless only this kind of check
        // has it.
        let own = words_of_its_own(kind);
        return match first_marker(&own, lower.as_str()) {
            Some(m) => pass(None, line_containing(output, m)),
            None => unread(),
        };
    }
    let bad = markers_of_failure();
    if let Some(m) = first_marker(&bad, lower.as_str()) {
        return fail(None, line_containing(output, m));
    }
    // An empty output from a linter or build conventionally means "nothing to report".
    if text::is_blank(output) && kind != CheckKind::Test {
        return pass(None, None);
    }
    unread()
}

/// A hand-written marker of success.
pub const CLEAN: &'static str = r"(?i)\b(clean|no problems|no issues|all good)\b";

/// A word of failure.
pub const CLEAN_FAIL: &'static str = r"(?i)\b(error|failed|failure|traceback)\b";

/// The output holds a hand-written success marker and no word of failure.
pub open spec fn is_marked(output: Seq<char>) -> bool {
    let lower = text::lowered(output);
    pattern::regex_is_match(CLEAN@, lower) && !pattern::regex_is_match(CLEAN_FAIL@, lower)
}

/// The cautious reading of an output.
pub open spec fn generic(output: Seq<char>, kind: CheckKind, exclusive: bool) -> ReadingModel {
    cautious(output, kind, exclusive, is_marked(output))
}

/// Conservative fallback: only call it a pass or a fail on unambiguous signals.
pub fn generic_outcome(output: &str, kind: CheckKind, exclusive: bool) -> (r: Reading)
    ensures
        r.deep_view() == generic(output@, kind, exclusive),
{
    let lower = text::lowercase(output);
    let clean = Pattern::new(CLEAN);
    let clean_fail = Pattern::new(CLEAN_FAIL);
    let marked = clean.is_match(lower.as_str()) && !clean_fail.is_match(lower.as_str());
    judge_generic(output, kind, exclusive, marked)
}

// ---------------------------------------------------------------- test runners

/// pytest and its kin. `none_ran` says that no test was collected.
pub open spec fn pytest_reading(
    none_ran: bool,
    passed: Option<u32>,
    failed: Option<u32>,
    output: Seq<char>,
) -> ReadingModel {
    let evidence = either(line_with(output, "passed"@), line_with(output, "failed"@));
    if none_ran {
        ReadingModel {
            outcome: Outcome::Failed,
            passed: Some(0),
            failed: None,
            evidence: line_with(output, "no tests"@),
        }
    } else if number_or(failed, 0) > 0 {
        ReadingModel { outcome: Outcome::Failed, passed, failed, evidence }
    } else if number_or(passed, 0) > 0 {
        ReadingModel { outcome: Outcome::Passed, passed, failed: Some(0), evidence }
    } else {
        ReadingModel { outcome: Outcome::Unknown, passed, failed, evidence }
    }
}

pub fn judge_pytest(
    none_ran: bool,
    passed: Option<u32>,
    failed: Option<u32>,
    output: &str,
) -> (r: Reading)
    ensures
        r.deep_view() == pytest_reading(none_ran, passed, failed, output@),
{
    if none_ran {
        return Reading {
            outcome: Outcome::Failed,
            passed: Some(0),
            failed: None,
            evidence: line_containing(output, "no tests"),
        };
    }
    let evidence = or_else(line_containing(output, "passed"), line_containing(output, "failed"));
    if number_else(failed, 0) > 0 {
        Reading { outcome: Outcome::Failed, passed, failed, evidence }
    } else if number_else(passed, 0) > 0 {
        Reading { outcome: Outcome::Passed, passed, failed: Some(0), evidence }
    } else {
        Reading { outcome: Outcome::Unknown, passed, failed, evidence }
    }
}

/// cargo's test summary: the word, the number passed and the number failed.
pub open spec fn cargo_test_reading(
    summary: Option<Seq<Option<Seq<char>>>>,
    output: Seq<char>,
) -> ReadingModel {
    match summary {
        Some(groups) => ReadingModel {
            outcome: if pattern::group_of(groups, 1) == "ok"@ && number_of(summary, 3) == Some(
                0u32,
            ) {
                Outcome::Passed
            } else {
                Outcome::Failed
            },
            passed: number_of(summary, 2),
            failed: number_of(summary, 3),
            evidence: line_with(output, "test result:"@),
        },
        None => if text::has(output, "error["@) || text::has(output, "error: could not compile"@) {
            fails(None, line_with(output, "error"@))
        } else {
            unreadable()
        },
    }
}

pub fn judge_cargo_test(summary: &Option<Vec<Option<String>>>, output: &str) -> (r: Reading)
    ensures
        r.deep_view() == cargo_test_reading(summary.deep_view(), output@),
{
    match summary {
        Some(groups) => {
            let passed = number_at(summary, 2);
            let failed = number_at(summary, 3);
            let word = pattern::group(groups, 1);
            let ok = text::same(word.as_str(), "ok");
            let none_failed = match failed {
                Some(n) => n == 0,
                None => false,
            };
            Reading {
                outcome: if ok && none_failed {
                    Outcome::Passed
                } else {
                    Outcome::Failed
                },
                passed,
                failed,
                evidence: line_containing(output, "test result:"),
            }
        },
        None => {
            if text::contains(output, "error[") || text::contains(
                output,
                "error: could not compile",
            ) {
                return fail(None, line_containing(output, "error"));
            }
            unread()
        },
    }
}

/// A line in which go reports a failure.
pub open spec fn go_failed(l: Seq<char>) -> bool {
    text::begins(l, "FAIL"@) || text::has(l, "--- FAIL"@)
}

/// A line in which go reports a pass.
pub open spec fn go_passed(l: Seq<char>) -> bool {
    text::begins(l, "ok "@) || text::begins(l, "PASS"@)
}

/// go's test output: one failing package fails the run.
pub open spec fn go_test_reading(output: Seq<char>) -> ReadingModel {
    if lists::any_such(text::lines_of(output), |l: Seq<char>| go_failed(l)) {
        fails(None, line_with(output, "fail"@))
    } else if lists::any_such(text::lines_of(output), |l: Seq<char>| go_passed(l)) {
        passes(None, line_with(output, "ok "@))
    } else {
        unreadable()
    }
}

pub fn judge_go_test(output: &str) -> (r: Reading)
    ensures
        r.deep_view() == go_test_reading(output@),
{
    let lines = text::lines(output);
    let ghost all = text::lines_of(output@);
    let mut failed = false;
    let mut passed = false;
    for i in 0..lines.len()
        invariant
            all == lines.deep_view(),
            failed == exists|k: int| 0 <= k < i && go_failed(#[trigger] all[k]),
            passed == exists|k: int| 0 <= k < i && go_passed(#[trigger] all[k]),
    {
        let l = lines[i].as_str();
        assert(all[i as int] == l@);
        let f = text::starts_with(l, "FAIL") || text::contains(l, "--- FAIL");
        let p = text::starts_with(l, "ok ") || text::starts_with(l, "PASS");
        failed = failed || f;
        passed = passed || p;
    }
    proof {
        let ps = |l: Seq<char>| go_passed(l);
        let fs = |l: Seq<char>| go_failed(l);
        if failed {
            let k = choose|k: int| 0 <= k < all.len() && go_failed(#[trigger] all[k]);
            assert(fs(all[k]));
        } else {
            assert(!lists::any_such(all, fs));
        }
        if passed {
            let k = choose|k: int| 0 <= k < all.len() && go_passed(#[trigger] all[k]);
            assert(ps(all[k]));
        } else {
            assert(!lists::any_such(all, ps));
        }
    }
    if failed {
        return fail(None, line_containing(output, "fail"));
    }
    if passed {
        return pass(None, line_containing(output, "ok "));
    }
    unread()
}

/// The test summary of jest and vitest: the number failed, where there are any, and the number
/// passed.
pub open spec fn jest_reading(
    summary: Option<Seq<Option<Seq<char>>>>,
    output: Seq<char>,
) -> ReadingModel {
    if summary is Some {
        let failed = number_or(number_of(summary, 1), 0);
        ReadingModel {
            outcome: if failed > 0 {
                Outcome::Failed
            } else {
                Outcome::Passed
            },
            passed: number_of(summary, 2),
            failed: Some(failed),
            evidence: line_with(output, "tests:"@),
        }
    } else if text::has(output, "FAIL "@) {
        fails(None, line_with(output, "fail "@))
    } else if text::has(output, "PASS "@) {
        passes(None, line_with(output, "pass "@))
    } else {
        unreadable()
    }
}

pub fn judge_jest(summary: &Option<Vec<Option<String>>>, output: &str) -> (r: Reading)
    ensures
        r.deep_view() == jest_reading(summary.deep_view(), output@),
{
    if summary.is_some() {
        let failed = number_else(number_at(summary, 1), 0);
        return Reading {
            outcome: if failed > 0 {
                Outcome::Failed
            } else {
                Outcome::Passed
            },
            passed: number_at(summary, 2),
            failed: Some(failed),
            evidence: line_containing(output, "tests:"),
        };
    }
    if text::contains(output, "FAIL ") {
        return fail(None, line_containing(output, "fail "));
    }
    if text::contains(output, "PASS ") {
        return pass(None, line_containing(output, "pass "));
    }
    unread()
}

/// The summary of mocha, ava and rspec.
pub open spec fn mocha_reading(
    passed: Option<u32>,
    failed: Option<u32>,
    output: Seq<char>,
) -> ReadingModel {
    let evidence = either(line_with(output, "passing"@), line_with(output, "failure"@));
    if number_or(failed, 0) > 0 {
        ReadingModel { outcome: Outcome::Failed, passed, failed, evidence }
    } else if number_or(passed, 0) > 0 {
        ReadingModel { outcome: Outcome::Passed, passed, failed: Some(0), evidence }
    } else {
        ReadingModel { outcome: Outcome::Unknown, passed, failed, evidence }
    }
}

pub fn judge_mocha(passed: Option<u32>, failed: Option<u32>, output: &str) -> (r: Reading)
    ensures
        r.deep_view() == mocha_reading(passed, failed, output@),
{
    let evidence = or_else(line_containing(output, "passing"), line_containing(output, "failure"));
    if number_else(failed, 0) > 0 {
        Reading { outcome: Outcome::Failed, passed, failed, evidence }
    } else if number_else(passed, 0) > 0 {
        Reading { outcome: Outcome::Passed, passed, failed: Some(0), evidence }
    } else {
        Reading { outcome: Outcome::Unknown, passed, failed, evidence }
    }
}

/// The state of a check in a row of `gh pr checks`: the second column.
pub open spec fn row_state(row: Seq<char>) -> Seq<char> {
    let columns = text::parts_of(row, '\t');
    if columns.len() > 1 {
        text::lowered(text::trimmed(columns[1]))
    } else {
        Seq::empty()
    }
}

/// The row reports a check that passed, or did not need to.
pub open spec fn row_passed(row: Seq<char>) -> bool {
    let s = row_state(row);
    s == "pass"@ || s == "success"@ || s == "skipping"@ || s == "skipped"@ || s == "neutral"@
}

/// The row reports a check that failed.
pub open spec fn row_failed(row: Seq<char>) -> bool {
    let s = row_state(row);
    s == "fail"@ || s == "failure"@ || s == "cancelled"@ || s == "timed_out"@
}

/// How many rows satisfy `p`.
pub open spec fn rows_such(rows: Seq<Seq<char>>, p: spec_fn(Seq<char>) -> bool) -> nat
    decreases rows.len(),
{
    if rows.len() == 0 {
        0
    } else {
        rows_such(rows.drop_last(), p) + (if p(rows.last()) {
            1nat
        } else {
            0
        })
    }
}

/// The number of rows that passed, as the report counts them.
pub open spec fn passed_rows(output: Seq<char>) -> u32 {
    rows_such(text::lines_of(output), |l: Seq<char>| row_passed(l)) as u32
}

/// The number of rows that failed, as the report counts them.
pub open spec fn failed_rows(output: Seq<char>) -> u32 {
    rows_such(text::lines_of(output), |l: Seq<char>| row_failed(l)) as u32
}

/// The name and state in the last row that has columns.
pub open spec fn last_row(output: Seq<char>) -> Option<Seq<char>> {
    match lists::last_such(text::lines_of(output), |l: Seq<char>| l.contains('\t')) {
        Some(l) => {
            let columns = text::parts_of(l, '\t');
            Some(
                text::joined(
                    columns.take(
                        if columns.len() < 2 {
                            columns.len() as int
                        } else {
                            2
                        },
                    ),
                    ": "@,
                ),
            )
        },
        None => None,
    }
}

/// `gh pr checks`: one tab-separated row per check, with name, state, duration and url.
pub open spec fn ci_checks_reading(output: Seq<char>) -> ReadingModel {
    if failed_rows(output) > 0 {
        ReadingModel {
            outcome: Outcome::Failed,
            passed: Some(passed_rows(output)),
            failed: Some(failed_rows(output)),
            evidence: last_row(output),
        }
    } else if passed_rows(output) > 0 {
        ReadingModel {
            outcome: Outcome::Passed,
            passed: Some(passed_rows(output)),
            failed: Some(0),
            evidence: last_row(output),
        }
    } else {
        unreadable()
    }
}

fn state_of_row(row: &str) -> (r: String)
    ensures
        r@ == row_state(row@),
{
    let columns = text::split(row, '\t');
    if columns.len() > 1 {
        let t = text::trim(columns[1].as_str());
        text::lowercase(t.as_str())
    } else {
        String::new()
    }
}

fn last_row_text(output: &str) -> (r: Option<String>)
    ensures
        r.deep_view() == last_row(output@),
{
    let lines = text::lines(output);
    let ghost all = lines.deep_view();
    let ghost p = |l: Seq<char>| l.contains('\t');
    let mut i: usize = lines.len();
    assert(all.take(all.len() as int) =~= all);
    while i > 0
        invariant
            i <= lines.len(),
            all == lines.deep_view(),
            all == text::lines_of(output@),
            p == (|l: Seq<char>| l.contains('\t')),
            lists::last_such(all, p) == lists::last_such(all.take(i as int), p),
        decreases i,
    {
        let l = lines[i - 1].as_str();
        assert(all.take(i as int).last() == l@);
        assert(all.take(i as int).drop_last() =~= all.take(i - 1));
        if text::contains_char(l, '\t') {
            let columns = text::split(l, '\t');
            let mut kept: Vec<String> = Vec::new();
            let n: usize = if columns.len() < 2 {
                columns.len()
            } else {
                2
            };
            for k in 0..n
                invariant
                    n <= columns@.len(),
                    kept@.len() == k,
                    forall|j: int| 0 <= j < k ==> (#[trigger] kept@[j])@ == columns@[j]@,
            {
                kept.push(columns[k].clone());
            }
            assert(kept.deep_view() =~= columns.deep_view().take(n as int));
            return Some(text::join(&kept, ": "));
        }
        i = i - 1;
    }
    None
}

pub fn judge_ci_checks(output: &str) -> (r: Reading)
    ensures
        r.deep_view() == ci_checks_reading(output@),
{
    let lines = text::lines(output);
    let ghost all = text::lines_of(output@);
    let ghost good = |l: Seq<char>| row_passed(l);
    let ghost bad = |l: Seq<char>| row_failed(l);
    let mut passed: usize = 0;
    let mut failed: usize = 0;
    for i in 0..lines.len()
        invariant
            all == lines.deep_view(),
            good == (|l: Seq<char>| row_passed(l)),
            bad == (|l: Seq<char>| row_failed(l)),
            passed <= i,
            failed <= i,
            passed == rows_such(all.take(i as int), good),
            failed == rows_such(all.take(i as int), bad),
    {
        assert(all.take(i + 1).drop_last() =~= all.take(i as int));
        assert(all.take(i + 1).last() == lines@[i as int]@);
        let state = state_of_row(lines[i].as_str());
        let s = state.as_str();
        if text::same(s, "pass") || text::same(s, "success") || text::same(s, "skipping")
            || text::same(s, "skipped") || text::same(s, "neutral") {
            assert(good(all[i as int]));
            passed = passed + 1;
        } else {
            assert(!good(all[i as int]));
        }
        if text::same(s, "fail") || text::same(s, "failure") || text::same(s, "cancelled")
            || text::same(s, "timed_out") {
            assert(bad(all[i as int]));
            failed = failed + 1;
        } else {
            assert(!bad(all[i as int]));
        }
    }
    assert(all.take(all.len() as int) =~= all);
    let passed = #[verifier::truncate] (passed as u32);
    let failed = #[verifier::truncate] (failed as u32);
    assert(passed == passed_rows(output@));
    assert(failed == failed_rows(output@));
    let evidence = last_row_text(output);
    if failed > 0 {
        Reading { outcome: Outcome::Failed, passed: Some(passed), failed: Some(failed), evidence }
    } else if passed > 0 {
        Reading { outcome: Outcome::Passed, passed: Some(passed), failed: Some(0), evidence }
    } else {
        unread()
    }
}

/// A line that can be a row of `gh run list`.
pub open spec fn is_run_row(l: Seq<char>) -> bool {
    l.contains('\t') || text::has(l, "completed"@) || text::has(l, "in_progress"@)
}

/// The first row of the output, which is about the newest run.
pub open spec fn newest_run(output: Seq<char>) -> Option<Seq<char>> {
    lists::first_such(text::trimmed_lines(output), |l: Seq<char>| is_run_row(l))
}

/// `gh run list`: only the newest run is about the work in hand, and `gh` prints it first. Older
/// rows are history, so aggregating them would let last week's failure contradict today's claim.
pub open spec fn ci_run_reading(output: Seq<char>) -> Option<ReadingModel> {
    match newest_run(output) {
        None => None,
        Some(row) => {
            let lower = text::lowered(row);
            if text::has(lower, "failure"@) || text::has(lower, "cancelled"@) || text::has(
                lower,
                "timed_out"@,
            ) {
                Some(fails(Some(1), Some(row)))
            } else if text::has(lower, "success"@) {
                Some(
                    ReadingModel {
                        outcome: Outcome::Passed,
                        passed: Some(1),
                        failed: Some(0),
                        evidence: Some(row),
                    },
                )
            } else {
                Some(unreadable())
            }
        },
    }
}

fn newest_row(output: &str) -> (r: Option<String>)
    ensures
        r.deep_view() == newest_run(output@),
{
    let lines = text::lines(output);
    let ghost all = text::trimmed_lines(output@);
    let ghost p = |l: Seq<char>| is_run_row(l);
    let mut i: usize = 0;
    assert(all.skip(0) =~= all);
    while i < lines.len()
        invariant
            i <= lines.len(),
            lines.deep_view() == text::lines_of(output@),
            all == text::trimmed_lines(output@),
            p == (|l: Seq<char>| is_run_row(l)),
            lists::first_such(all, p) == lists::first_such(all.skip(i as int), p),
        decreases lines.len() - i,
    {
        let row = text::trim(lines[i].as_str());
        assert(lines.deep_view()[i as int] == lines@[i as int]@);
        assert(all.skip(i as int)[0] == row@);
        assert(all.skip(i as int).skip(1) =~= all.skip(i + 1));
        if text::contains_char(row.as_str(), '\t') || text::contains(row.as_str(), "completed")
            || text::contains(row.as_str(), "in_progress") {
            assert(p(row@));
            return Some(row);
        }
        i = i + 1;
    }
    None
}

pub fn judge_ci_run(output: &str) -> (r: Option<Reading>)
    ensures
        r.deep_view() == ci_run_reading(output@),
{
    match newest_row(output) {
        None => None,
        Some(row) => {
            let lowered = text::lowercase(row.as_str());
            let lower = lowered.as_str();
            if text::contains(lower, "failure") || text::contains(lower, "cancelled")
                || text::contains(lower, "timed_out") {
                return Some(fail(Some(1), Some(row)));
            }
            if text::contains(lower, "success") {
                return Some(
                    Reading {
                        outcome: Outcome::Passed,
                        passed: Some(1),
                        failed: Some(0),
                        evidence: Some(row),
                    },
                );
            }
            // Queued or still running proves nothing yet.
            Some(unread())
        },
    }
}

// ---------------------------------------------------------------- type checkers and linters

/// mypy: its own success line, or the number of errors found.
pub open spec fn mypy_reading(
    found: Option<Seq<Option<Seq<char>>>>,
    output: Seq<char>,
) -> ReadingModel {
    if text::has(output, "Success: no issues found"@) {
        passes(Some(0), line_with(output, "success:"@))
    } else if found is Some {
        fails(number_of(found, 1), line_with(output, "found "@))
    } else {
        unreadable()
    }
}

pub fn judge_mypy(found: &Option<Vec<Option<String>>>, output: &str) -> (r: Reading)
    ensures
        r.deep_view() == mypy_reading(found.deep_view(), output@),
{
    if text::contains(output, "Success: no issues found") {
        return pass(Some(0), line_containing(output, "success:"));
    }
    if found.is_some() {
        return fail(number_at(found, 1), line_containing(output, "found "));
    }
    unread()
}

/// tsc prints nothing when it is happy, and every diagnostic it does emit carries a TS error
/// code. That makes the absence of a code a reliable pass even when the surrounding output
/// belongs to another tool in the same chain.
pub open spec fn tsc_reading(diagnosed: bool, count: nat, output: Seq<char>) -> ReadingModel {
    if diagnosed {
        fails(Some(count as u32), line_with(output, "error ts"@))
    } else {
        passes(Some(0), None)
    }
}

pub fn judge_tsc(diagnosed: bool, count: usize, output: &str) -> (r: Reading)
    ensures
        r.deep_view() == tsc_reading(diagnosed, count as nat, output@),
{
    if diagnosed {
        let n = #[verifier::truncate] (count as u32);
        return fail(Some(n), line_containing(output, "error ts"));
    }
    pass(Some(0), None)
}

/// ruff: what it repaired, its own success lines, or the number of errors found. `ruff check
/// --fix` reports what it found and then what it repaired, so "Found 2 errors (2 fixed, 0
/// remaining)" is a clean result.
pub open spec fn ruff_reading(
    fixed: Option<Seq<Option<Seq<char>>>>,
    found: Option<Seq<Option<Seq<char>>>>,
    output: Seq<char>,
) -> Option<ReadingModel> {
    if fixed is Some {
        let remaining = number_or(number_of(fixed, 2), 1);
        let evidence = line_with(output, "remaining)"@);
        if remaining == 0 {
            Some(passes(Some(0), evidence))
        } else {
            Some(fails(Some(remaining), evidence))
        }
    } else if text::has(output, "All checks passed"@) || text::has(
        output,
        "files already formatted"@,
    ) {
        Some(passes(Some(0), line_with(output, "passed"@)))
    } else if found is Some {
        Some(fails(number_of(found, 1), line_with(output, "found "@)))
    } else {
        None
    }
}

pub fn judge_ruff(
    fixed: &Option<Vec<Option<String>>>,
    found: &Option<Vec<Option<String>>>,
    output: &str,
) -> (r: Option<Reading>)
    ensures
        r.deep_view() == ruff_reading(fixed.deep_view(), found.deep_view(), output@),
{
    if fixed.is_some() {
        let remaining = number_else(number_at(fixed, 2), 1);
        let evidence = line_containing(output, "remaining)");
        return if remaining == 0 {
            Some(pass(Some(0), evidence))
        } else {
            Some(fail(Some(remaining), evidence))
        };
    }
    if text::contains(output, "All checks passed") || text::contains(
        output,
        "files already formatted",
    ) {
        return Some(pass(Some(0), line_containing(output, "passed")));
    }
    if found.is_some() {
        return Some(fail(number_at(found, 1), line_containing(output, "found ")));
    }
    // `ruff check -q` prints nothing when it is happy, so callers routinely append their own
    // marker (`&& echo RUFF CLEAN`). The generic reading finds it.
    None
}

/// eslint's summary, as an npm script prints it: "3 problems (3 errors, 0 warnings)".
pub open spec fn npm_lint_reading(
    summary: Option<Seq<Option<Seq<char>>>>,
    output: Seq<char>,
) -> Option<ReadingModel> {
    match number_of(summary, 2) {
        Some(n) => if n > 0 {
            Some(fails(Some(n), line_with(output, "problem"@)))
        } else {
            Some(passes(Some(0), line_with(output, "problem"@)))
        },
        None => None,
    }
}

pub fn judge_npm_lint(summary: &Option<Vec<Option<String>>>, output: &str) -> (r: Option<Reading>)
    ensures
        r.deep_view() == npm_lint_reading(summary.deep_view(), output@),
{
    match number_at(summary, 2) {
        Some(n) => {
            let evidence = line_containing(output, "problem");
            if n > 0 {
                Some(fail(Some(n), evidence))
            } else {
                Some(pass(Some(0), evidence))
            }
        },
        None => None,
    }
}

/// shellcheck: the number of findings, and the last one.
pub open spec fn shellcheck_reading(count: nat, last: Option<Seq<char>>) -> Option<ReadingModel> {
    if count > 0 {
        Some(fails(Some(count as u32), last))
    } else {
        None
    }
}

pub fn judge_shellcheck(count: usize, last: Option<String>) -> (r: Option<Reading>)
    ensures
        r.deep_view() == shellcheck_reading(count as nat, last.deep_view()),
{
    if count > 0 {
        let n = #[verifier::truncate] (count as u32);
        return Some(fail(Some(n), last));
    }
    None
}

/// "Contracts: 1 kept, 0 broken." names both counts, so the word "broken" is present on a clean
/// run too. The number is read rather than the word.
pub open spec fn import_linter_reading(
    contracts: Option<Seq<Option<Seq<char>>>>,
    output: Seq<char>,
) -> Option<ReadingModel> {
    if contracts is Some {
        let broken = number_or(number_of(contracts, 2), 0);
        let evidence = line_with(output, "contracts:"@);
        if broken == 0 {
            Some(passes(Some(0), evidence))
        } else {
            Some(fails(Some(broken), evidence))
        }
    } else {
        None
    }
}

pub fn judge_import_linter(contracts: &Option<Vec<Option<String>>>, output: &str) -> (r: Option<
    Reading,
>)
    ensures
        r.deep_view() == import_linter_reading(contracts.deep_view(), output@),
{
    if contracts.is_some() {
        let broken = number_else(number_at(contracts, 2), 0);
        let evidence = line_containing(output, "contracts:");
        return if broken == 0 {
            Some(pass(Some(0), evidence))
        } else {
            Some(fail(Some(broken), evidence))
        };
    }
    None
}

/// pre-commit: each hook reports "name.....Passed" or "Failed"; any failure fails the run.
pub open spec fn pre_commit_reading(output: Seq<char>) -> Option<ReadingModel> {
    if text::has(output, "Failed"@) {
        Some(fails(None, line_with(output, "failed"@)))
    } else if text::has(output, "Passed"@) || text::has(output, "Skipped"@) {
        Some(passes(Some(0), line_with(output, "passed"@)))
    } else {
        None
    }
}

pub fn judge_pre_commit(output: &str) -> (r: Option<Reading>)
    ensures
        r.deep_view() == pre_commit_reading(output@),
{
    if text::contains(output, "Failed") {
        return Some(fail(None, line_containing(output, "failed")));
    }
    if text::contains(output, "Passed") || text::contains(output, "Skipped") {
        return Some(pass(Some(0), line_containing(output, "passed")));
    }
    None
}

// ---------------------------------------------------------------- builds

/// cargo's builds and checks: an error, or cargo's own progress line rather than the word
/// "finished", which also ends a test summary ("... finished in 0.79s") and would cite a test
/// result as proof that a build succeeded.
pub open spec fn cargo_build_reading(errors: bool, output: Seq<char>) -> ReadingModel {
    if errors {
        fails(None, line_with(output, "error"@))
    } else if text::has(output, "Finished"@) || text::has(output, "Compiling"@) {
        passes(Some(0), last_line(output, is_progress()))
    } else {
        unreadable()
    }
}

pub fn judge_cargo_build(errors: bool, output: &str) -> (r: Reading)
    ensures
        r.deep_view() == cargo_build_reading(errors, output@),
{
    if errors {
        return fail(None, line_containing(output, "error"));
    }
    if text::contains(output, "Finished") || text::contains(output, "Compiling") {
        return pass(Some(0), last_progress_line(output));
    }
    unread()
}

/// A JS build is a stack of tools, each with its own success line: vite's `built in 1.04s`, Next's
/// route table, webpack's compile message. Failures surface as TypeScript diagnostics or an
/// explicit build error.
pub open spec fn npm_build_reading(broken: bool, built: bool, output: Seq<char>) -> Option<
    ReadingModel,
> {
    if broken {
        Some(fails(None, either(line_with(output, "error"@), line_with(output, "fail"@))))
    } else if built {
        Some(
            passes(
                Some(0),
                either(
                    either(line_with(output, "built in"@), line_with(output, "compiled"@)),
                    line_with(output, "static content"@),
                ),
            ),
        )
    } else {
        None
    }
}

pub fn judge_npm_build(broken: bool, built: bool, output: &str) -> (r: Option<Reading>)
    ensures
        r.deep_view() == npm_build_reading(broken, built, output@),
{
    if broken {
        return Some(
            fail(None, or_else(line_containing(output, "error"), line_containing(output, "fail"))),
        );
    }
    if built {
        let evidence = or_else(
            or_else(line_containing(output, "built in"), line_containing(output, "compiled")),
            line_containing(output, "static content"),
        );
        return Some(pass(Some(0), evidence));
    }
    None
}

/// mkdocs and sphinx.
pub open spec fn docs_reading(output: Seq<char>) -> Option<ReadingModel> {
    if text::has(output, "Aborted"@) || text::has(text::lowered(output), "error"@) {
        Some(fails(None, line_with(output, "error"@)))
    } else if text::has(output, "Documentation built in"@) || text::has(
        output,
        "build succeeded"@,
    ) {
        Some(passes(Some(0), line_with(output, "built in"@)))
    } else {
        None
    }
}

pub fn judge_docs(output: &str) -> (r: Option<Reading>)
    ensures
        r.deep_view() == docs_reading(output@),
{
    let lower = text::lowercase(output);
    if text::contains(output, "Aborted") || text::contains(lower.as_str(), "error") {
        return Some(fail(None, line_containing(output, "error")));
    }
    if text::contains(output, "Documentation built in") || text::contains(
        output,
        "build succeeded",
    ) {
        return Some(pass(Some(0), line_containing(output, "built in")));
    }
    None
}

/// `python -m build`.
pub open spec fn python_build_reading(output: Seq<char>) -> Option<ReadingModel> {
    if text::has(output, "Successfully built"@) {
        Some(passes(Some(0), line_with(output, "successfully built"@)))
    } else {
        None
    }
}

pub fn judge_python_build(output: &str) -> (r: Option<Reading>)
    ensures
        r.deep_view() == python_build_reading(output@),
{
    if text::contains(output, "Successfully built") {
        return Some(pass(Some(0), line_containing(output, "successfully built")));
    }
    None
}

/// `docker build`. `built` says that one of its own success lines is there.
pub open spec fn docker_build_reading(built: bool, output: Seq<char>) -> Option<ReadingModel> {
    if built {
        Some(passes(Some(0), line_with(output, "naming to"@)))
    } else {
        None
    }
}

pub fn judge_docker_build(built: bool, output: &str) -> (r: Option<Reading>)
    ensures
        r.deep_view() == docker_build_reading(built, output@),
{
    if built {
        return Some(pass(Some(0), line_containing(output, "naming to")));
    }
    None
}

// ---------------------------------------------------------------- every runner

pub const NO_TESTS: &'static str = r"(?i)no tests ran|collected 0 items";

pub const PASSED: &'static str = r"(\d+) passed";

pub const FAILED: &'static str = r"(\d+) (?:failed|error)";

pub const CARGO_RESULT: &'static str = r"test result: (ok|FAILED)\. (\d+) passed; (\d+) failed";

pub const JEST_TESTS: &'static str =
    r"Tests:\s+(?:(\d+) failed,\s+)?(?:\d+ skipped,\s+)?(\d+) passed";

pub const PASSING: &'static str = r"(\d+) (?:passing|examples?)";

pub const FAILING: &'static str = r"(\d+) (?:failing|failures?)";

pub const FOUND_ERRORS: &'static str = r"Found (\d+) error";

pub const FIXED: &'static str = r"\((\d+) fixed, (\d+) remaining\)";

pub const CARGO_ERROR: &'static str = r"error(?:\[E\d+\])?:";

pub const NPM_BROKEN: &'static str =
    r"(?i)error TS\d+|error during build|build failed|ERROR in |Failed to compile|✗ build";

pub const NPM_BUILT: &'static str =
    r"(?i)✓ built in|built in \d|compiled successfully|Compiled successfully|webpack compiled|✓ \d+ modules transformed|prerendered as static content|Build complete";

pub const CONTRACTS: &'static str = r"Contracts:\s*(\d+) kept,\s*(\d+) broken";

pub const DOCKER_BUILT: &'static str =
    r"(?i)naming to |writing image sha256|Successfully built|DONE \d";

pub const TS_ERROR: &'static str = r"error TS\d+";

/// A finding of shellcheck, by its code and severity. The closing list of wiki pages repeats the
/// code without a severity.
pub const SHELLCHECK_FINDING: &'static str = r"SC\d+ \((?:error|warning|info|style)\):";

pub const ESLINT_SUMMARY: &'static str = r"(\d+) problems? \((\d+) errors?";

/// A reading, or the cautious one where there is none.
pub open spec fn reading_or(
    reading: Option<ReadingModel>,
    output: Seq<char>,
    kind: CheckKind,
    exclusive: bool,
) -> ReadingModel {
    match reading {
        Some(r) => r,
        None => generic(output, kind, exclusive),
    }
}

/// What the output of a runner says.
pub open spec fn outcome_of(
    runner: Seq<char>,
    kind: CheckKind,
    output: Seq<char>,
    exclusive: bool,
) -> ReadingModel {
    if runner == "pytest"@ || runner == "tox"@ || runner == "nox"@ || runner == "unittest"@ {
        pytest_reading(
            pattern::regex_is_match(NO_TESTS@, output),
            number_of(pattern::regex_captures(PASSED@, output), 1),
            number_of(pattern::regex_captures(FAILED@, output), 1),
            output,
        )
    } else if runner == "cargo test"@ {
        cargo_test_reading(pattern::regex_captures(CARGO_RESULT@, output), output)
    } else if runner == "go test"@ {
        go_test_reading(output)
    } else if runner == "jest"@ || runner == "vitest"@ {
        jest_reading(pattern::regex_captures(JEST_TESTS@, output), output)
    } else if runner == "mocha"@ || runner == "ava"@ || runner == "rspec"@ {
        mocha_reading(
            number_of(pattern::regex_captures(PASSING@, output), 1),
            number_of(pattern::regex_captures(FAILING@, output), 1),
            output,
        )
    } else if runner == "mypy"@ {
        mypy_reading(pattern::regex_captures(FOUND_ERRORS@, output), output)
    } else if runner == "clippy"@ || runner == "cargo check"@ || runner == "cargo build"@ {
        cargo_build_reading(pattern::regex_is_match(CARGO_ERROR@, output), output)
    } else if runner == "ci checks"@ {
        ci_checks_reading(output)
    } else if runner == "tsc"@ {
        tsc_reading(
            pattern::regex_is_match(TS_ERROR@, output),
            pattern::regex_count(TS_ERROR@, output),
            output,
        )
    } else {
        reading_or(own_reading(runner, output), output, kind, exclusive)
    }
}

/// What a runner's own lines say, for those runners that leave the rest to the cautious reading.
pub open spec fn own_reading(runner: Seq<char>, output: Seq<char>) -> Option<ReadingModel> {
    if runner == "ruff"@ {
        ruff_reading(
            pattern::regex_captures(FIXED@, output),
            pattern::regex_captures(FOUND_ERRORS@, output),
            output,
        )
    } else if runner == "npm build"@ {
        npm_build_reading(
            pattern::regex_is_match(NPM_BROKEN@, output),
            pattern::regex_is_match(NPM_BUILT@, output),
            output,
        )
    } else if runner == "npm lint"@ {
        npm_lint_reading(pattern::regex_captures(ESLINT_SUMMARY@, output), output)
    } else if runner == "shellcheck"@ {
        shellcheck_reading(
            pattern::regex_count(SHELLCHECK_FINDING@, output),
            last_line(output, matches_line(SHELLCHECK_FINDING@)),
        )
    } else if runner == "ci run"@ {
        ci_run_reading(output)
    } else if runner == "import-linter"@ {
        import_linter_reading(pattern::regex_captures(CONTRACTS@, output), output)
    } else if runner == "pre-commit"@ {
        pre_commit_reading(output)
    } else if runner == "mkdocs"@ || runner == "sphinx"@ {
        docs_reading(output)
    } else if runner == "python build"@ {
        python_build_reading(output)
    } else if runner == "docker build"@ {
        docker_build_reading(pattern::regex_is_match(DOCKER_BUILT@, output), output)
    } else {
        None
    }
}

/// Read what a runner's own lines say, for those runners that leave the rest to the cautious
/// reading.
fn read_own(runner: &str, output: &str) -> (r: Option<Reading>)
    ensures
        r.deep_view() == own_reading(runner@, output@),
{
    if text::same(runner, "ruff") {
        let fixed = Pattern::new(FIXED);
        let found = Pattern::new(FOUND_ERRORS);
        judge_ruff(&fixed.captures(output), &found.captures(output), output)
    } else if text::same(runner, "npm build") {
        let broken = Pattern::new(NPM_BROKEN);
        let built = Pattern::new(NPM_BUILT);
        judge_npm_build(broken.is_match(output), built.is_match(output), output)
    } else if text::same(runner, "npm lint") {
        let summary = Pattern::new(ESLINT_SUMMARY);
        judge_npm_lint(&summary.captures(output), output)
    } else if text::same(runner, "shellcheck") {
        let finding = Pattern::new(SHELLCHECK_FINDING);
        judge_shellcheck(finding.count(output), line_matching(output, &finding))
    } else if text::same(runner, "ci run") {
        judge_ci_run(output)
    } else if text::same(runner, "import-linter") {
        let contracts = Pattern::new(CONTRACTS);
        judge_import_linter(&contracts.captures(output), output)
    } else if text::same(runner, "pre-commit") {
        judge_pre_commit(output)
    } else if text::same(runner, "mkdocs") || text::same(runner, "sphinx") {
        judge_docs(output)
    } else if text::same(runner, "python build") {
        judge_python_build(output)
    } else if text::same(runner, "docker build") {
        let built = Pattern::new(DOCKER_BUILT);
        judge_docker_build(built.is_match(output), output)
    } else {
        None
    }
}

/// Read a runner's outcome out of its output.
pub fn parse_outcome(runner: &str, kind: CheckKind, output: &str, exclusive: bool) -> (r: Reading)
    ensures
        r.deep_view() == outcome_of(runner@, kind, output@, exclusive),
{
    if text::same(runner, "pytest") || text::same(runner, "tox") || text::same(runner, "nox")
        || text::same(runner, "unittest") {
        let none = Pattern::new(NO_TESTS);
        let passed = Pattern::new(PASSED);
        let failed = Pattern::new(FAILED);
        judge_pytest(
            none.is_match(output),
            number_at(&passed.captures(output), 1),
            number_at(&failed.captures(output), 1),
            output,
        )
    } else if text::same(runner, "cargo test") {
        let result = Pattern::new(CARGO_RESULT);
        judge_cargo_test(&result.captures(output), output)
    } else if text::same(runner, "go test") {
        judge_go_test(output)
    } else if text::same(runner, "jest") || text::same(runner, "vitest") {
        let tests = Pattern::new(JEST_TESTS);
        judge_jest(&tests.captures(output), output)
    } else if text::same(runner, "mocha") || text::same(runner, "ava") || text::same(
        runner,
        "rspec",
    ) {
        let passing = Pattern::new(PASSING);
        let failing = Pattern::new(FAILING);
        judge_mocha(
            number_at(&passing.captures(output), 1),
            number_at(&failing.captures(output), 1),
            output,
        )
    } else if text::same(runner, "mypy") {
        let found = Pattern::new(FOUND_ERRORS);
        judge_mypy(&found.captures(output), output)
    } else if text::same(runner, "clippy") || text::same(runner, "cargo check") || text::same(
        runner,
        "cargo build",
    ) {
        let error = Pattern::new(CARGO_ERROR);
        judge_cargo_build(error.is_match(output), output)
    } else if text::same(runner, "ci checks") {
        judge_ci_checks(output)
    } else if text::same(runner, "tsc") {
        let ts = Pattern::new(TS_ERROR);
        judge_tsc(ts.is_match(output), ts.count(output), output)
    } else {
        match read_own(runner, output) {
            Some(r) => r,
            None => generic_outcome(output, kind, exclusive),
        }
    }
}

// ---------------------------------------------------------------- laws

/// A hand-written marker of success says nothing about a test run.
pub proof fn law_a_marker_never_vouches_for_tests(output: Seq<char>, exclusive: bool)
    ensures
        cautious(output, CheckKind::Test, exclusive, true) == cautious(
            output,
            CheckKind::Test,
            exclusive,
            false,
        ),
{
}

/// In output that other commands may have printed, the cautious reading passes only on a word that
/// this kind of check alone has, which of all kinds only builds do, and fails only where no word
/// of success stands.
pub proof fn law_one_tool_never_vouches_for_another(
    output: Seq<char>,
    kind: CheckKind,
    marked: bool,
)
    requires
        text::trimmed(output).len() > 0,
    ensures
        cautious(output, kind, false, marked).outcome == Outcome::Passed <==> marker_in(
            own_words(kind),
            text::lowered(output),
        ) is Some,
        kind != CheckKind::Build ==> cautious(output, kind, false, marked).outcome
            != Outcome::Passed,
        cautious(output, kind, false, marked).outcome == Outcome::Failed ==> marker_in(
            pass_markers(kind),
            text::lowered(output),
        ) is None,
{
    let lower = text::lowered(output);
    let p = |m: Seq<char>| text::has(lower, m);
    let all = pass_markers(kind);
    let own = own_words(kind);
    if marker_in(own, lower) is Some {
        lists::lemma_first_such(own, p);
        lists::lemma_first_such(all, p);
        let i = choose|i: int| 0 <= i < own.len() && p(#[trigger] own[i]);
        assert(all[4 + i] == own[i]);
    }
}

/// Only the newest workflow run decides: nothing that stands in lines behind its row changes what
/// is read.
pub proof fn law_only_the_newest_run_decides(output: Seq<char>, rest: Seq<char>)
    requires
        newest_run(output) is Some,
    ensures
        newest_run(output + seq!['\n'] + rest) == newest_run(output),
        ci_run_reading(output + seq!['\n'] + rest) == ci_run_reading(output),
{
    text::lemma_lines_joined(output, rest);
    let lines = text::trimmed_lines(output);
    let p = |l: Seq<char>| is_run_row(l);
    let behind = text::blank_line_behind(output) + text::trimmed_lines(rest);
    assert(text::trimmed_lines(output + seq!['\n'] + rest) =~= lines + behind);
    lists::lemma_first_such_longer(lines, behind, p);
}

/// The evidence is the last line of the output that mentions `needle`, in whatever case, without
/// the white space round it; there is none where no line mentions it.
pub open spec fn cites(evidence: Option<Seq<char>>, output: Seq<char>, needle: Seq<char>) -> bool {
    let lines = text::lines_of(output);
    match evidence {
        Some(e) => exists|i: int|
            0 <= i < lines.len() && e == text::trimmed(#[trigger] lines[i]) && text::has(
                text::lowered(lines[i]),
                needle,
            ) && (forall|j: int|
                i < j < lines.len() ==> !text::has(text::lowered(#[trigger] lines[j]), needle)),
        None => forall|j: int|
            0 <= j < lines.len() ==> !text::has(text::lowered(#[trigger] lines[j]), needle),
    }
}

/// The evidence is the last line that mentions `first`, or where there is none the last line that
/// mentions `second`.
pub open spec fn cites_either(
    evidence: Option<Seq<char>>,
    output: Seq<char>,
    first: Seq<char>,
    second: Seq<char>,
) -> bool {
    if exists|j: int|
        0 <= j < text::lines_of(output).len() && text::has(
            text::lowered(#[trigger] text::lines_of(output)[j]),
            first,
        ) {
        cites(evidence, output, first)
    } else {
        cites(evidence, output, second)
    }
}

/// The evidence is the last line that mentions the first of the words that the output holds, in
/// whatever case.
pub open spec fn cites_first_of(
    evidence: Option<Seq<char>>,
    output: Seq<char>,
    words: Seq<Seq<char>>,
) -> bool {
    exists|i: int|
        0 <= i < words.len() && text::has(text::lowered(output), #[trigger] words[i]) && (forall|
            j: int,
        |
            0 <= j < i ==> !text::has(text::lowered(output), #[trigger] words[j])) && cites(
            evidence,
            output,
            words[i],
        )
}

/// The output holds one of the words, in whatever case.
pub open spec fn holds_any(output: Seq<char>, words: Seq<Seq<char>>) -> bool {
    exists|i: int|
        0 <= i < words.len() && text::has(text::lowered(output), #[trigger] words[i])
}

/// The line found is the one that [`cites`] describes.
proof fn lemma_cites(output: Seq<char>, needle: Seq<char>)
    ensures
        cites(line_with(output, needle), output, needle),
{
    let lines = text::lines_of(output);
    let p = mentions(needle);
    lists::lemma_last_such(lines, p);
    match lists::last_such(lines, p) {
        Some(a) => {
            let i = choose|i: int|
                0 <= i < lines.len() && #[trigger] lines[i] == a && p(a) && (forall|j: int|
                    i < j < lines.len() ==> !p(#[trigger] lines[j]));
            assert forall|j: int| i < j < lines.len() implies !text::has(
                text::lowered(#[trigger] lines[j]),
                needle,
            ) by {
                assert(!p(lines[j]));
            }
            assert(text::trimmed(lines[i]) == line_with(output, needle)->0);
        },
        None => {
            assert forall|j: int| 0 <= j < lines.len() implies !text::has(
                text::lowered(#[trigger] lines[j]),
                needle,
            ) by {
                assert(!p(lines[j]));
            }
        },
    }
}

/// The line found under one word or another is the one that [`cites_either`] describes.
proof fn lemma_cites_either(output: Seq<char>, first: Seq<char>, second: Seq<char>)
    ensures
        cites_either(
            either(line_with(output, first), line_with(output, second)),
            output,
            first,
            second,
        ),
        line_with(output, first) is Some <==> exists|j: int|
            0 <= j < text::lines_of(output).len() && text::has(
                text::lowered(#[trigger] text::lines_of(output)[j]),
                first,
            ),
{
    lemma_cites(output, first);
    lemma_cites(output, second);
}

/// The line found for the first word is the one that [`cites_first_of`] describes.
proof fn lemma_first_word_cited(output: Seq<char>, words: Seq<Seq<char>>)
    ensures
        match marker_in(words, text::lowered(output)) {
            Some(m) => holds_any(output, words) && cites_first_of(
                line_with(output, m),
                output,
                words,
            ),
            None => !holds_any(output, words),
        },
{
    let lower = text::lowered(output);
    let p = |m: Seq<char>| text::has(lower, m);
    lists::lemma_first_such(words, p);
    match marker_in(words, lower) {
        Some(m) => {
            let i = choose|i: int|
                0 <= i < words.len() && #[trigger] words[i] == m && p(m) && (forall|j: int|
                    0 <= j < i ==> !p(#[trigger] words[j]));
            assert forall|j: int| 0 <= j < i implies !text::has(lower, #[trigger] words[j]) by {
                assert(!p(words[j]));
            }
            lemma_cites(output, words[i]);
        },
        None => {
            assert forall|i: int| 0 <= i < words.len() implies !text::has(
                lower,
                #[trigger] words[i],
            ) by {
                assert(!p(words[i]));
            }
        },
    }
}

/// What tells the names of the runners apart: the length, the first and the last character.
spec fn shape(name: Seq<char>) -> (nat, char, char) {
    (name.len(), name[0], name[name.len() - 1])
}

/// No two of the names are the same.
proof fn lemma_names_differ()
    ensures
        shape("pytest"@) == (6nat, 'p', 't'),
        shape("tox"@) == (3nat, 't', 'x'),
        shape("nox"@) == (3nat, 'n', 'x'),
        shape("unittest"@) == (8nat, 'u', 't'),
        shape("cargo test"@) == (10nat, 'c', 't'),
        shape("go test"@) == (7nat, 'g', 't'),
        shape("jest"@) == (4nat, 'j', 't'),
        shape("vitest"@) == (6nat, 'v', 't'),
        shape("mocha"@) == (5nat, 'm', 'a'),
        shape("ava"@) == (3nat, 'a', 'a'),
        shape("rspec"@) == (5nat, 'r', 'c'),
        shape("mypy"@) == (4nat, 'm', 'y'),
        shape("clippy"@) == (6nat, 'c', 'y'),
        shape("cargo check"@) == (11nat, 'c', 'k'),
        shape("cargo build"@) == (11nat, 'c', 'd'),
        shape("ci checks"@) == (9nat, 'c', 's'),
        shape("tsc"@) == (3nat, 't', 'c'),
        shape("ruff"@) == (4nat, 'r', 'f'),
        shape("npm build"@) == (9nat, 'n', 'd'),
        shape("npm lint"@) == (8nat, 'n', 't'),
        shape("shellcheck"@) == (10nat, 's', 'k'),
        shape("ci run"@) == (6nat, 'c', 'n'),
        shape("import-linter"@) == (13nat, 'i', 'r'),
        shape("pre-commit"@) == (10nat, 'p', 't'),
        shape("mkdocs"@) == (6nat, 'm', 's'),
        shape("sphinx"@) == (6nat, 's', 'x'),
        shape("python build"@) == (12nat, 'p', 'd'),
        shape("docker build"@) == (12nat, 'd', 'd'),
{
    reveal_strlit("pytest");
    reveal_strlit("tox");
    reveal_strlit("nox");
    reveal_strlit("unittest");
    reveal_strlit("cargo test");
    reveal_strlit("go test");
    reveal_strlit("jest");
    reveal_strlit("vitest");
    reveal_strlit("mocha");
    reveal_strlit("ava");
    reveal_strlit("rspec");
    reveal_strlit("mypy");
    reveal_strlit("clippy");
    reveal_strlit("cargo check");
    reveal_strlit("cargo build");
    reveal_strlit("ci checks");
    reveal_strlit("tsc");
    reveal_strlit("ruff");
    reveal_strlit("npm build");
    reveal_strlit("npm lint");
    reveal_strlit("shellcheck");
    reveal_strlit("ci run");
    reveal_strlit("import-linter");
    reveal_strlit("pre-commit");
    reveal_strlit("mkdocs");
    reveal_strlit("sphinx");
    reveal_strlit("python build");
    reveal_strlit("docker build");
}

/// An error fails a cargo build, clippy or `cargo check`, whatever else cargo printed before it or
/// after it.
pub proof fn law_an_error_fails_a_cargo_build(
    runner: Seq<char>,
    kind: CheckKind,
    output: Seq<char>,
    exclusive: bool,
)
    requires
        runner == "clippy"@ || runner == "cargo check"@ || runner == "cargo build"@,
        pattern::regex_is_match(r"error(?:\[E\d+\])?:"@, output),
    ensures
        ({
            let r = outcome_of(runner, kind, output, exclusive);
            &&& r.outcome == Outcome::Failed
            &&& r.passed is None
            &&& r.failed is None
            &&& cites(r.evidence, output, "error"@)
        }),
{
    lemma_names_differ();
    lemma_cites(output, "error"@);
}

/// Without an error a cargo build passes exactly where cargo reports progress, and the last such
/// line is the evidence; where it reports none, nothing can be told.
pub proof fn law_progress_passes_a_cargo_build(
    runner: Seq<char>,
    kind: CheckKind,
    output: Seq<char>,
    exclusive: bool,
)
    requires
        runner == "clippy"@ || runner == "cargo check"@ || runner == "cargo build"@,
        !pattern::regex_is_match(r"error(?:\[E\d+\])?:"@, output),
    ensures
        ({
            let r = outcome_of(runner, kind, output, exclusive);
            let lines = text::lines_of(output);
            let shows = |l: Seq<char>|
                text::begins(text::front_trimmed(l, text::whites()), "Finished"@) || text::begins(
                    text::front_trimmed(l, text::whites()),
                    "Compiling"@,
                );
            &&& r.passed is None
            &&& if text::has(output, "Finished"@) || text::has(output, "Compiling"@) {
                &&& r.outcome == Outcome::Passed
                &&& r.failed == Some(0u32)
                &&& match r.evidence {
                    Some(e) => exists|i: int|
                        0 <= i < lines.len() && e == text::trimmed(#[trigger] lines[i]) && shows(
                            lines[i],
                        ) && (forall|j: int| i < j < lines.len() ==> !shows(#[trigger] lines[j])),
                    None => forall|j: int| 0 <= j < lines.len() ==> !shows(#[trigger] lines[j]),
                }
            } else {
                r.outcome == Outcome::Unknown && r.failed is None && r.evidence is None
            }
        }),
{
    lemma_names_differ();
    let lines = text::lines_of(output);
    lists::lemma_last_such(lines, is_progress());
    match lists::last_such(lines, is_progress()) {
        Some(a) => {
            let i = choose|i: int|
                0 <= i < lines.len() && #[trigger] lines[i] == a && is_progress()(a) && (forall|
                    j: int,
                |
                    i < j < lines.len() ==> !is_progress()(#[trigger] lines[j]));
            assert(text::trimmed(lines[i]) == text::trimmed(a));
            assert forall|j: int| i < j < lines.len() implies !is_progress()(
                #[trigger] lines[j],
            ) by {}
        },
        None => {
            assert forall|j: int| 0 <= j < lines.len() implies !is_progress()(
                #[trigger] lines[j],
            ) by {}
        },
    }
}

/// pytest and its kin: a run that collected nothing fails; a failure fails the run however many
/// tests passed; a pass needs a test that passed and none that failed. The counts are those
/// printed.
pub proof fn law_how_pytest_is_read(
    runner: Seq<char>,
    kind: CheckKind,
    output: Seq<char>,
    exclusive: bool,
)
    requires
        runner == "pytest"@ || runner == "tox"@ || runner == "nox"@ || runner == "unittest"@,
    ensures
        ({
            let r = outcome_of(runner, kind, output, exclusive);
            let passed = number_of(pattern::regex_captures(r"(\d+) passed"@, output), 1);
            let failed = number_of(pattern::regex_captures(r"(\d+) (?:failed|error)"@, output), 1);
            if pattern::regex_is_match(r"(?i)no tests ran|collected 0 items"@, output) {
                &&& r.outcome == Outcome::Failed
                &&& r.passed == Some(0u32)
                &&& r.failed is None
                &&& cites(r.evidence, output, "no tests"@)
            } else {
                &&& r.outcome == Outcome::Failed <==> failed is Some && failed->0 > 0
                &&& r.outcome == Outcome::Passed <==> passed is Some && passed->0 > 0 && (failed
                    is None || failed->0 == 0)
                &&& r.outcome != Outcome::DidNotComplete
                &&& r.passed == passed
                &&& r.outcome == Outcome::Passed ==> r.failed == Some(0u32)
                &&& r.outcome != Outcome::Passed ==> r.failed == failed
                &&& cites_either(r.evidence, output, "passed"@, "failed"@)
            }
        }),
{
    lemma_names_differ();
    lemma_cites(output, "no tests"@);
    lemma_cites_either(output, "passed"@, "failed"@);
}

/// `cargo test`: the summary passes with the word `ok` and no failure, and any other summary
/// fails; without a summary a compile error fails, and nothing passes.
pub proof fn law_how_cargo_test_is_read(kind: CheckKind, output: Seq<char>, exclusive: bool)
    ensures
        ({
            let r = outcome_of("cargo test"@, kind, output, exclusive);
            let summary = pattern::regex_captures(
                r"test result: (ok|FAILED)\. (\d+) passed; (\d+) failed"@,
                output,
            );
            match summary {
                Some(groups) => {
                    &&& r.outcome == Outcome::Passed <==> pattern::group_of(groups, 1) == "ok"@
                        && number_of(summary, 3) == Some(0u32)
                    &&& r.outcome == Outcome::Passed || r.outcome == Outcome::Failed
                    &&& r.passed == number_of(summary, 2)
                    &&& r.failed == number_of(summary, 3)
                    &&& cites(r.evidence, output, "test result:"@)
                },
                None => {
                    &&& r.passed is None
                    &&& r.failed is None
                    &&& if text::has(output, "error["@) || text::has(
                        output,
                        "error: could not compile"@,
                    ) {
                        r.outcome == Outcome::Failed && cites(r.evidence, output, "error"@)
                    } else {
                        r.outcome == Outcome::Unknown && r.evidence is None
                    }
                },
            }
        }),
{
    lemma_names_differ();
    lemma_cites(output, "test result:"@);
    lemma_cites(output, "error"@);
}

/// `go test`: one line of failure fails the run, whatever else passed; without one a line of
/// success passes it.
pub proof fn law_how_go_test_is_read(kind: CheckKind, output: Seq<char>, exclusive: bool)
    ensures
        ({
            let r = outcome_of("go test"@, kind, output, exclusive);
            let lines = text::lines_of(output);
            let failed = exists|i: int|
                0 <= i < lines.len() && (text::begins(#[trigger] lines[i], "FAIL"@) || text::has(
                    lines[i],
                    "--- FAIL"@,
                ));
            let passed = exists|i: int|
                0 <= i < lines.len() && (text::begins(#[trigger] lines[i], "ok "@) || text::begins(
                    lines[i],
                    "PASS"@,
                ));
            &&& r.passed is None
            &&& r.failed is None
            &&& if failed {
                r.outcome == Outcome::Failed && cites(r.evidence, output, "fail"@)
            } else if passed {
                r.outcome == Outcome::Passed && cites(r.evidence, output, "ok "@)
            } else {
                r.outcome == Outcome::Unknown && r.evidence is None
            }
        }),
{
    lemma_names_differ();
    lemma_cites(output, "fail"@);
    lemma_cites(output, "ok "@);
    let lines = text::lines_of(output);
    let f = |l: Seq<char>| go_failed(l);
    let p = |l: Seq<char>| go_passed(l);
    if lists::any_such(lines, f) {
        let i = choose|i: int| 0 <= i < lines.len() && f(#[trigger] lines[i]);
        assert(go_failed(lines[i]));
    } else {
        assert forall|i: int| 0 <= i < lines.len() implies !go_failed(#[trigger] lines[i]) by {
            assert(!f(lines[i]));
        }
    }
    if lists::any_such(lines, p) {
        let i = choose|i: int| 0 <= i < lines.len() && p(#[trigger] lines[i]);
        assert(go_passed(lines[i]));
    } else {
        assert forall|i: int| 0 <= i < lines.len() implies !go_passed(#[trigger] lines[i]) by {
            assert(!p(lines[i]));
        }
    }
}

/// jest and vitest: a failure counted in the summary fails the run, and a summary without one
/// passes it; without a summary a file that failed fails it, whatever other file passed.
pub proof fn law_how_jest_is_read(
    runner: Seq<char>,
    kind: CheckKind,
    output: Seq<char>,
    exclusive: bool,
)
    requires
        runner == "jest"@ || runner == "vitest"@,
    ensures
        ({
            let r = outcome_of(runner, kind, output, exclusive);
            let summary = pattern::regex_captures(
                r"Tests:\s+(?:(\d+) failed,\s+)?(?:\d+ skipped,\s+)?(\d+) passed"@,
                output,
            );
            let failed = number_of(summary, 1);
            if summary is Some {
                &&& r.outcome == (if failed is Some && failed->0 > 0 {
                    Outcome::Failed
                } else {
                    Outcome::Passed
                })
                &&& r.passed == number_of(summary, 2)
                &&& r.failed == (if failed is Some {
                    failed
                } else {
                    Some(0u32)
                })
                &&& cites(r.evidence, output, "tests:"@)
            } else {
                &&& r.passed is None
                &&& r.failed is None
                &&& if text::has(output, "FAIL "@) {
                    r.outcome == Outcome::Failed && cites(r.evidence, output, "fail "@)
                } else if text::has(output, "PASS "@) {
                    r.outcome == Outcome::Passed && cites(r.evidence, output, "pass "@)
                } else {
                    r.outcome == Outcome::Unknown && r.evidence is None
                }
            }
        }),
{
    lemma_names_differ();
    lemma_cites(output, "tests:"@);
    lemma_cites(output, "fail "@);
    lemma_cites(output, "pass "@);
}

/// mocha, ava and rspec: a failure counted fails the run, however many passed.
pub proof fn law_how_mocha_is_read(
    runner: Seq<char>,
    kind: CheckKind,
    output: Seq<char>,
    exclusive: bool,
)
    requires
        runner == "mocha"@ || runner == "ava"@ || runner == "rspec"@,
    ensures
        ({
            let r = outcome_of(runner, kind, output, exclusive);
            let passed = number_of(
                pattern::regex_captures(r"(\d+) (?:passing|examples?)"@, output),
                1,
            );
            let failed = number_of(
                pattern::regex_captures(r"(\d+) (?:failing|failures?)"@, output),
                1,
            );
            &&& r.outcome == Outcome::Failed <==> failed is Some && failed->0 > 0
            &&& r.outcome == Outcome::Passed <==> passed is Some && passed->0 > 0 && (failed is None
                || failed->0 == 0)
            &&& r.outcome != Outcome::DidNotComplete
            &&& r.passed == passed
            &&& r.outcome == Outcome::Passed ==> r.failed == Some(0u32)
            &&& r.outcome != Outcome::Passed ==> r.failed == failed
            &&& cites_either(r.evidence, output, "passing"@, "failure"@)
        }),
{
    lemma_names_differ();
    lemma_cites_either(output, "passing"@, "failure"@);
}

/// mypy: its own words of success pass, a number of errors found fails, and nothing else is read.
pub proof fn law_how_mypy_is_read(kind: CheckKind, output: Seq<char>, exclusive: bool)
    ensures
        ({
            let r = outcome_of("mypy"@, kind, output, exclusive);
            let found = pattern::regex_captures(r"Found (\d+) error"@, output);
            &&& r.passed is None
            &&& if text::has(output, "Success: no issues found"@) {
                &&& r.outcome == Outcome::Passed
                &&& r.failed == Some(0u32)
                &&& cites(r.evidence, output, "success:"@)
            } else if found is Some {
                &&& r.outcome == Outcome::Failed
                &&& r.failed == number_of(found, 1)
                &&& cites(r.evidence, output, "found "@)
            } else {
                r.outcome == Outcome::Unknown && r.failed is None && r.evidence is None
            }
        }),
{
    lemma_names_differ();
    lemma_cites(output, "success:"@);
    lemma_cites(output, "found "@);
}

/// tsc: a diagnostic fails the run, with as many failures as there are, and their absence passes
/// it.
pub proof fn law_how_tsc_is_read(kind: CheckKind, output: Seq<char>, exclusive: bool)
    ensures
        ({
            let r = outcome_of("tsc"@, kind, output, exclusive);
            let count = pattern::regex_count(r"error TS\d+"@, output);
            &&& r.passed is None
            &&& if pattern::regex_is_match(r"error TS\d+"@, output) {
                &&& r.outcome == Outcome::Failed
                &&& count <= u32::MAX ==> r.failed is Some && r.failed->0 == count
                &&& cites(r.evidence, output, "error ts"@)
            } else {
                r.outcome == Outcome::Passed && r.failed == Some(0u32) && r.evidence is None
            }
        }),
{
    lemma_names_differ();
    lemma_cites(output, "error ts"@);
}

/// `gh pr checks`: one row that failed fails the whole, however many rows passed; without one a
/// row that passed, or did not need to, passes it. The state of a row stands in its second column.
pub proof fn law_how_ci_checks_are_read(
    kind: CheckKind,
    output: Seq<char>,
    exclusive: bool,
)
    requires
        text::lines_of(output).len() <= u32::MAX,
    ensures
        ({
            let r = outcome_of("ci checks"@, kind, output, exclusive);
            let lines = text::lines_of(output);
            let state = |l: Seq<char>|
                text::lowered(text::trimmed(text::parts_of(l, '\t')[1]));
            let failed = |l: Seq<char>|
                text::parts_of(l, '\t').len() > 1 && (state(l) == "fail"@ || state(l)
                    == "failure"@ || state(l) == "cancelled"@ || state(l) == "timed_out"@);
            let passed = |l: Seq<char>|
                text::parts_of(l, '\t').len() > 1 && (state(l) == "pass"@ || state(l)
                    == "success"@ || state(l) == "skipping"@ || state(l) == "skipped"@ || state(l)
                    == "neutral"@);
            let bad = lists::kept(lines, failed).len();
            let good = lists::kept(lines, passed).len();
            if bad > 0 {
                &&& r.outcome == Outcome::Failed
                &&& r.failed is Some && r.failed->0 == bad
                &&& r.passed is Some && r.passed->0 == good
            } else if good > 0 {
                &&& r.outcome == Outcome::Passed
                &&& r.failed == Some(0u32)
                &&& r.passed is Some && r.passed->0 == good
            } else {
                &&& r.outcome == Outcome::Unknown
                &&& r.failed is None && r.passed is None && r.evidence is None
            }
        }),
{
    lemma_names_differ();
    let lines = text::lines_of(output);
    let state = |l: Seq<char>| text::lowered(text::trimmed(text::parts_of(l, '\t')[1]));
    let failed = |l: Seq<char>|
        text::parts_of(l, '\t').len() > 1 && (state(l) == "fail"@ || state(l) == "failure"@
            || state(l) == "cancelled"@ || state(l) == "timed_out"@);
    let passed = |l: Seq<char>|
        text::parts_of(l, '\t').len() > 1 && (state(l) == "pass"@ || state(l) == "success"@
            || state(l) == "skipping"@ || state(l) == "skipped"@ || state(l) == "neutral"@);
    let f = |l: Seq<char>| row_failed(l);
    let p = |l: Seq<char>| row_passed(l);
    reveal_strlit("fail");
    reveal_strlit("failure");
    reveal_strlit("cancelled");
    reveal_strlit("timed_out");
    reveal_strlit("pass");
    reveal_strlit("success");
    reveal_strlit("skipping");
    reveal_strlit("skipped");
    reveal_strlit("neutral");
    assert forall|l: Seq<char>| #[trigger] f(l) == failed(l) by {
        if text::parts_of(l, '\t').len() > 1 {
            assert(row_state(l) == state(l));
        } else {
            assert(row_state(l).len() == 0);
        }
    }
    assert forall|l: Seq<char>| #[trigger] p(l) == passed(l) by {
        if text::parts_of(l, '\t').len() > 1 {
            assert(row_state(l) == state(l));
        } else {
            assert(row_state(l).len() == 0);
        }
    }
    lemma_rows_counted(lines, f, failed);
    lemma_rows_counted(lines, p, passed);
}

/// The rows counted are those that are kept.
proof fn lemma_rows_counted(
    rows: Seq<Seq<char>>,
    p: spec_fn(Seq<char>) -> bool,
    q: spec_fn(Seq<char>) -> bool,
)
    requires
        forall|l: Seq<char>| #[trigger] p(l) == q(l),
    ensures
        rows_such(rows, p) == lists::kept(rows, q).len(),
        rows_such(rows, p) <= rows.len(),
    decreases rows.len(),
{
    if rows.len() > 0 {
        lemma_rows_counted(rows.drop_last(), p, q);
        assert(p(rows.last()) == q(rows.last()));
    }
}

/// The evidence of `gh pr checks` is the last row that has columns: its name and its state.
pub proof fn law_ci_checks_cite_the_last_row(kind: CheckKind, output: Seq<char>, exclusive: bool)
    requires
        outcome_of("ci checks"@, kind, output, exclusive).outcome != Outcome::Unknown,
    ensures
        match outcome_of("ci checks"@, kind, output, exclusive).evidence {
            Some(e) => exists|i: int|
                0 <= i < text::lines_of(output).len() && (#[trigger] text::lines_of(
                    output,
                )[i]).contains('\t') && (forall|j: int|
                    i < j < text::lines_of(output).len() ==> !(#[trigger] text::lines_of(
                        output,
                    )[j]).contains('\t')) && e == text::parts_of(
                    text::lines_of(output)[i],
                    '\t',
                )[0] + ": "@ + text::parts_of(text::lines_of(output)[i], '\t')[1],
            None => forall|j: int|
                0 <= j < text::lines_of(output).len() ==> !(#[trigger] text::lines_of(
                    output,
                )[j]).contains('\t'),
        },
{
    lemma_names_differ();
    let lines = text::lines_of(output);
    let p = |l: Seq<char>| l.contains('\t');
    lists::lemma_last_such(lines, p);
    match lists::last_such(lines, p) {
        Some(l) => {
            let i = choose|i: int|
                0 <= i < lines.len() && #[trigger] lines[i] == l && p(l) && (forall|j: int|
                    i < j < lines.len() ==> !p(#[trigger] lines[j]));
            assert forall|j: int| i < j < lines.len() implies !(#[trigger] lines[j]).contains(
                '\t',
            ) by {
                assert(!p(lines[j]));
            }
            let columns = text::parts_of(l, '\t');
            text::lemma_two_parts(l, '\t');
            let two = columns.take(2);
            assert(two.drop_last() =~= seq![columns[0]]);
            assert(two.drop_last().drop_last() =~= Seq::<Seq<char>>::empty());
            reveal_with_fuel(text::joined, 3);
            assert(text::joined(two, ": "@) =~= columns[0] + ": "@ + columns[1]);
        },
        None => {
            assert forall|j: int| 0 <= j < lines.len() implies !(#[trigger] lines[j]).contains(
                '\t',
            ) by {
                assert(!p(lines[j]));
            }
        },
    }
}

/// ruff: a count of what remains after repairs decides before anything else; then its own words of
/// success, then the number of errors found.
pub proof fn law_how_ruff_is_read(kind: CheckKind, output: Seq<char>, exclusive: bool)
    ensures
        ({
            let r = outcome_of("ruff"@, kind, output, exclusive);
            let fixed = pattern::regex_captures(r"\((\d+) fixed, (\d+) remaining\)"@, output);
            let found = pattern::regex_captures(r"Found (\d+) error"@, output);
            let remaining = number_of(fixed, 2);
            if fixed is Some {
                &&& r.passed is None
                &&& r.outcome == (if remaining == Some(0u32) {
                    Outcome::Passed
                } else {
                    Outcome::Failed
                })
                &&& r.failed == (if remaining is Some {
                    remaining
                } else {
                    Some(1u32)
                })
                &&& cites(r.evidence, output, "remaining)"@)
            } else if text::has(output, "All checks passed"@) || text::has(
                output,
                "files already formatted"@,
            ) {
                &&& r.passed is None
                &&& r.outcome == Outcome::Passed
                &&& r.failed == Some(0u32)
                &&& cites(r.evidence, output, "passed"@)
            } else if found is Some {
                &&& r.passed is None
                &&& r.outcome == Outcome::Failed
                &&& r.failed == number_of(found, 1)
                &&& cites(r.evidence, output, "found "@)
            } else {
                r == generic(output, kind, exclusive)
            }
        }),
{
    lemma_names_differ();
    lemma_cites(output, "remaining)"@);
    lemma_cites(output, "passed"@);
    lemma_cites(output, "found "@);
}

/// A JS build: any sign of failure fails it, whatever success it reports besides.
pub proof fn law_how_an_npm_build_is_read(kind: CheckKind, output: Seq<char>, exclusive: bool)
    ensures
        ({
            let r = outcome_of("npm build"@, kind, output, exclusive);
            if pattern::regex_is_match(
                r"(?i)error TS\d+|error during build|build failed|ERROR in |Failed to compile|✗ build"@,
                output,
            ) {
                &&& r.outcome == Outcome::Failed
                &&& r.passed is None
                &&& r.failed is None
                &&& cites_either(r.evidence, output, "error"@, "fail"@)
            } else if pattern::regex_is_match(
                r"(?i)✓ built in|built in \d|compiled successfully|Compiled successfully|webpack compiled|✓ \d+ modules transformed|prerendered as static content|Build complete"@,
                output,
            ) {
                &&& r.outcome == Outcome::Passed
                &&& r.passed is None
                &&& r.failed == Some(0u32)
                &&& if cites(None, output, "built in"@) && cites(None, output, "compiled"@) {
                    cites(r.evidence, output, "static content"@)
                } else {
                    cites_either(r.evidence, output, "built in"@, "compiled"@)
                }
            } else {
                r == generic(output, kind, exclusive)
            }
        }),
{
    lemma_names_differ();
    lemma_cites_either(output, "error"@, "fail"@);
    lemma_cites_either(output, "built in"@, "compiled"@);
    lemma_cites(output, "static content"@);
}

/// eslint under npm: the number of errors in its summary decides.
pub proof fn law_how_npm_lint_is_read(kind: CheckKind, output: Seq<char>, exclusive: bool)
    ensures
        ({
            let r = outcome_of("npm lint"@, kind, output, exclusive);
            let errors = number_of(
                pattern::regex_captures(r"(\d+) problems? \((\d+) errors?"@, output),
                2,
            );
            if errors is Some {
                &&& r.passed is None
                &&& r.failed == errors
                &&& r.outcome == Outcome::Passed <==> errors->0 == 0
                &&& r.outcome == Outcome::Failed <==> errors->0 > 0
                &&& cites(r.evidence, output, "problem"@)
            } else {
                r == generic(output, kind, exclusive)
            }
        }),
{
    lemma_names_differ();
    lemma_cites(output, "problem"@);
}

/// shellcheck: a finding fails the run, with as many failures as there are findings.
pub proof fn law_how_shellcheck_is_read(kind: CheckKind, output: Seq<char>, exclusive: bool)
    ensures
        ({
            let r = outcome_of("shellcheck"@, kind, output, exclusive);
            let finding = r"SC\d+ \((?:error|warning|info|style)\):"@;
            let count = pattern::regex_count(finding, output);
            if count > 0 {
                &&& r.outcome == Outcome::Failed
                &&& r.passed is None
                &&& count <= u32::MAX ==> r.failed is Some && r.failed->0 == count
                &&& r.evidence matches Some(e) ==> exists|i: int|
                    0 <= i < text::lines_of(output).len() && pattern::regex_is_match(
                        finding,
                        #[trigger] text::lines_of(output)[i],
                    ) && e == text::trimmed(text::lines_of(output)[i])
            } else {
                r == generic(output, kind, exclusive)
            }
        }),
{
    lemma_names_differ();
    let lines = text::lines_of(output);
    let p = matches_line(SHELLCHECK_FINDING@);
    lists::lemma_last_such(lines, p);
    if let Some(a) = lists::last_such(lines, p) {
        let i = choose|i: int|
            0 <= i < lines.len() && #[trigger] lines[i] == a && p(a) && (forall|j: int|
                i < j < lines.len() ==> !p(#[trigger] lines[j]));
        assert(pattern::regex_is_match(SHELLCHECK_FINDING@, lines[i]));
    }
}

/// `gh run list`: the first row decides. A row that tells of a failure fails even where it holds a
/// word of success too, and a run that is not over proves nothing.
pub proof fn law_how_a_ci_run_is_read(
    kind: CheckKind,
    output: Seq<char>,
    exclusive: bool,
    i: int,
)
    requires
        0 <= i < text::lines_of(output).len(),
        ({
            let row = text::trimmed(text::lines_of(output)[i]);
            row.contains('\t') || text::has(row, "completed"@) || text::has(row, "in_progress"@)
        }),
        forall|j: int|
            0 <= j < i ==> ({
                let row = text::trimmed(#[trigger] text::lines_of(output)[j]);
                !row.contains('\t') && !text::has(row, "completed"@) && !text::has(
                    row,
                    "in_progress"@,
                )
            }),
    ensures
        ({
            let r = outcome_of("ci run"@, kind, output, exclusive);
            let row = text::trimmed(text::lines_of(output)[i]);
            let lower = text::lowered(row);
            if text::has(lower, "failure"@) || text::has(lower, "cancelled"@) || text::has(
                lower,
                "timed_out"@,
            ) {
                r == (ReadingModel {
                    outcome: Outcome::Failed,
                    passed: None,
                    failed: Some(1),
                    evidence: Some(row),
                })
            } else if text::has(lower, "success"@) {
                r == (ReadingModel {
                    outcome: Outcome::Passed,
                    passed: Some(1),
                    failed: Some(0),
                    evidence: Some(row),
                })
            } else {
                r == (ReadingModel {
                    outcome: Outcome::Unknown,
                    passed: None,
                    failed: None,
                    evidence: None,
                })
            }
        }),
{
    lemma_names_differ();
    let rows = text::trimmed_lines(output);
    let p = |l: Seq<char>| is_run_row(l);
    lists::lemma_first_such(rows, p);
    assert(rows[i] == text::trimmed(text::lines_of(output)[i]));
    assert(p(rows[i]));
    assert(lists::first_such(rows, p) is Some);
    let a = lists::first_such(rows, p)->0;
    let k = choose|k: int|
        0 <= k < rows.len() && #[trigger] rows[k] == a && p(a) && (forall|j: int|
            0 <= j < k ==> !p(#[trigger] rows[j]));
    if k > i {
        assert(!p(rows[i]));
    }
    if k < i {
        assert(rows[k] == text::trimmed(text::lines_of(output)[k]));
        assert(!is_run_row(rows[k]));
    }
}

/// import-linter: a contract that is broken fails the run, however many are kept.
pub proof fn law_how_import_linter_is_read(kind: CheckKind, output: Seq<char>, exclusive: bool)
    ensures
        ({
            let r = outcome_of("import-linter"@, kind, output, exclusive);
            let contracts = pattern::regex_captures(
                r"Contracts:\s*(\d+) kept,\s*(\d+) broken"@,
                output,
            );
            let broken = number_of(contracts, 2);
            if contracts is Some {
                &&& r.passed is None
                &&& r.outcome == (if broken is Some && broken->0 > 0 {
                    Outcome::Failed
                } else {
                    Outcome::Passed
                })
                &&& r.failed == (if broken is Some {
                    broken
                } else {
                    Some(0u32)
                })
                &&& cites(r.evidence, output, "contracts:"@)
            } else {
                r == generic(output, kind, exclusive)
            }
        }),
{
    lemma_names_differ();
    lemma_cites(output, "contracts:"@);
}

/// pre-commit: one hook that failed fails the run, however many passed.
pub proof fn law_how_pre_commit_is_read(kind: CheckKind, output: Seq<char>, exclusive: bool)
    ensures
        ({
            let r = outcome_of("pre-commit"@, kind, output, exclusive);
            if text::has(output, "Failed"@) {
                &&& r.outcome == Outcome::Failed
                &&& r.passed is None && r.failed is None
                &&& cites(r.evidence, output, "failed"@)
            } else if text::has(output, "Passed"@) || text::has(output, "Skipped"@) {
                &&& r.outcome == Outcome::Passed
                &&& r.passed is None && r.failed == Some(0u32)
                &&& cites(r.evidence, output, "passed"@)
            } else {
                r == generic(output, kind, exclusive)
            }
        }),
{
    lemma_names_differ();
    lemma_cites(output, "failed"@);
    lemma_cites(output, "passed"@);
}

/// mkdocs and sphinx: an error fails the build, even where it says that it was built.
pub proof fn law_how_a_docs_build_is_read(
    runner: Seq<char>,
    kind: CheckKind,
    output: Seq<char>,
    exclusive: bool,
)
    requires
        runner == "mkdocs"@ || runner == "sphinx"@,
    ensures
        ({
            let r = outcome_of(runner, kind, output, exclusive);
            if text::has(output, "Aborted"@) || text::has(text::lowered(output), "error"@) {
                &&& r.outcome == Outcome::Failed
                &&& r.passed is None && r.failed is None
                &&& cites(r.evidence, output, "error"@)
            } else if text::has(output, "Documentation built in"@) || text::has(
                output,
                "build succeeded"@,
            ) {
                &&& r.outcome == Outcome::Passed
                &&& r.passed is None && r.failed == Some(0u32)
                &&& cites(r.evidence, output, "built in"@)
            } else {
                r == generic(output, kind, exclusive)
            }
        }),
{
    lemma_names_differ();
    lemma_cites(output, "error"@);
    lemma_cites(output, "built in"@);
}

/// Python packages and docker images: their own words of success pass the build.
pub proof fn law_how_packaging_is_read(kind: CheckKind, output: Seq<char>, exclusive: bool)
    ensures
        ({
            let r = outcome_of("python build"@, kind, output, exclusive);
            if text::has(output, "Successfully built"@) {
                &&& r.outcome == Outcome::Passed
                &&& r.passed is None && r.failed == Some(0u32)
                &&& cites(r.evidence, output, "successfully built"@)
            } else {
                r == generic(output, kind, exclusive)
            }
        }),
        ({
            let r = outcome_of("docker build"@, kind, output, exclusive);
            if pattern::regex_is_match(
                r"(?i)naming to |writing image sha256|Successfully built|DONE \d"@,
                output,
            ) {
                &&& r.outcome == Outcome::Passed
                &&& r.passed is None && r.failed == Some(0u32)
                &&& cites(r.evidence, output, "naming to"@)
            } else {
                r == generic(output, kind, exclusive)
            }
        }),
{
    lemma_names_differ();
    lemma_cites(output, "successfully built"@);
    lemma_cites(output, "naming to"@);
}

/// A runner without a reading of its own is read cautiously.
pub proof fn law_other_runners_are_read_cautiously(
    runner: Seq<char>,
    kind: CheckKind,
    output: Seq<char>,
    exclusive: bool,
)
    requires
        !seq![
            "pytest"@,
            "tox"@,
            "nox"@,
            "unittest"@,
            "cargo test"@,
            "go test"@,
            "jest"@,
            "vitest"@,
            "mocha"@,
            "ava"@,
            "rspec"@,
            "mypy"@,
            "clippy"@,
            "cargo check"@,
            "cargo build"@,
            "ci checks"@,
            "tsc"@,
            "ruff"@,
            "npm build"@,
            "npm lint"@,
            "shellcheck"@,
            "ci run"@,
            "import-linter"@,
            "pre-commit"@,
            "mkdocs"@,
            "sphinx"@,
            "python build"@,
            "docker build"@,
        ].contains(runner),
    ensures
        outcome_of(runner, kind, output, exclusive) == generic(output, kind, exclusive),
{
    let named = seq![
        "pytest"@,
        "tox"@,
        "nox"@,
        "unittest"@,
        "cargo test"@,
        "go test"@,
        "jest"@,
        "vitest"@,
        "mocha"@,
        "ava"@,
        "rspec"@,
        "mypy"@,
        "clippy"@,
        "cargo check"@,
        "cargo build"@,
        "ci checks"@,
        "tsc"@,
        "ruff"@,
        "npm build"@,
        "npm lint"@,
        "shellcheck"@,
        "ci run"@,
        "import-linter"@,
        "pre-commit"@,
        "mkdocs"@,
        "sphinx"@,
        "python build"@,
        "docker build"@,
    ];
    assert(named[0] == "pytest"@);
    assert(named[1] == "tox"@);
    assert(named[2] == "nox"@);
    assert(named[3] == "unittest"@);
    assert(named[4] == "cargo test"@);
    assert(named[5] == "go test"@);
    assert(named[6] == "jest"@);
    assert(named[7] == "vitest"@);
    assert(named[8] == "mocha"@);
    assert(named[9] == "ava"@);
    assert(named[10] == "rspec"@);
    assert(named[11] == "mypy"@);
    assert(named[12] == "clippy"@);
    assert(named[13] == "cargo check"@);
    assert(named[14] == "cargo build"@);
    assert(named[15] == "ci checks"@);
    assert(named[16] == "tsc"@);
    assert(named[17] == "ruff"@);
    assert(named[18] == "npm build"@);
    assert(named[19] == "npm lint"@);
    assert(named[20] == "shellcheck"@);
    assert(named[21] == "ci run"@);
    assert(named[22] == "import-linter"@);
    assert(named[23] == "pre-commit"@);
    assert(named[24] == "mkdocs"@);
    assert(named[25] == "sphinx"@);
    assert(named[26] == "python build"@);
    assert(named[27] == "docker build"@);
}

/// The cautious reading, where the text is known to be the command's own. A marker of success
/// without a word of failure passes anything but a test run. Then a word of success passes before
/// a word of failure is looked at, a word of failure fails, and silence passes anything but a test
/// run. Nothing else is read.
pub proof fn law_how_an_own_output_is_read(output: Seq<char>, kind: CheckKind)
    ensures
        ({
            let r = generic(output, kind, true);
            let lower = text::lowered(output);
            let lines = text::lines_of(output);
            let shared = seq![
                "all checks passed"@,
                "no issues found"@,
                "0 problems"@,
                "0 errors"@,
            ];
            let good = match kind {
                CheckKind::Test => shared,
                CheckKind::Build => shared + seq![
                    "build succeeded"@,
                    "compiled successfully"@,
                    "built in "@,
                    "success"@,
                ],
                CheckKind::Lint => shared + seq!["success"@],
                CheckKind::TypeCheck => shared + seq!["success"@],
            };
            let bad = seq![
                "error:"@,
                "failed"@,
                "failure"@,
                "exception"@,
                "panic:"@,
                "traceback"@,
                "error ts"@,
            ];
            &&& r.passed is None
            &&& if kind != CheckKind::Test && pattern::regex_is_match(
                r"(?i)\b(clean|no problems|no issues|all good)\b"@,
                lower,
            ) && !pattern::regex_is_match(r"(?i)\b(error|failed|failure|traceback)\b"@, lower) {
                &&& r.outcome == Outcome::Passed
                &&& r.failed == Some(0u32)
                &&& match r.evidence {
                    Some(e) => exists|i: int|
                        0 <= i < lines.len() && e == text::trimmed(#[trigger] lines[i]) && e.len()
                            > 0 && (forall|j: int|
                            i < j < lines.len() ==> text::trimmed(#[trigger] lines[j]).len() == 0),
                    None => forall|j: int|
                        0 <= j < lines.len() ==> text::trimmed(#[trigger] lines[j]).len() == 0,
                }
            } else {
                &&& r.failed is None
                &&& if holds_any(output, good) {
                    r.outcome == Outcome::Passed && cites_first_of(r.evidence, output, good)
                } else if holds_any(output, bad) {
                    r.outcome == Outcome::Failed && cites_first_of(r.evidence, output, bad)
                } else if text::trimmed(output).len() == 0 && kind != CheckKind::Test {
                    r.outcome == Outcome::Passed && r.evidence is None
                } else {
                    r.outcome == Outcome::Unknown && r.evidence is None
                }
            }
        }),
{
    let shared = seq!["all checks passed"@, "no issues found"@, "0 problems"@, "0 errors"@];
    assert(shared + Seq::<Seq<char>>::empty() =~= shared);
    lemma_first_word_cited(output, pass_markers(kind));
    lemma_first_word_cited(output, fail_markers());
    let lines = text::lines_of(output);
    let p = is_filled();
    lists::lemma_last_such(lines, p);
    match lists::last_such(lines, p) {
        Some(a) => {
            let i = choose|i: int|
                0 <= i < lines.len() && #[trigger] lines[i] == a && p(a) && (forall|j: int|
                    i < j < lines.len() ==> !p(#[trigger] lines[j]));
            assert(text::trimmed(lines[i]).len() > 0);
            assert forall|j: int| i < j < lines.len() implies text::trimmed(
                #[trigger] lines[j],
            ).len() == 0 by {
                assert(!p(lines[j]));
            }
        },
        None => {
            assert forall|j: int| 0 <= j < lines.len() implies text::trimmed(
                #[trigger] lines[j],
            ).len() == 0 by {
                assert(!p(lines[j]));
            }
        },
    }
}

/// The cautious reading of a stream that other commands may have printed to. A build passes on the
/// words that only a build has; any other word of success settles nothing; without one a word of
/// failure fails, and silence passes anything but a test run.
pub proof fn law_how_a_shared_output_is_read(output: Seq<char>, kind: CheckKind)
    ensures
        ({
            let r = generic(output, kind, false);
            let own = seq!["build succeeded"@, "compiled successfully"@, "built in "@];
            let any = seq!["all checks passed"@, "no issues found"@, "0 problems"@, "0 errors"@];
            let bad = seq![
                "error:"@,
                "failed"@,
                "failure"@,
                "exception"@,
                "panic:"@,
                "traceback"@,
                "error ts"@,
            ];
            &&& r.passed is None
            &&& r.failed is None
            &&& if kind == CheckKind::Build && holds_any(output, own) {
                r.outcome == Outcome::Passed && cites_first_of(r.evidence, output, own)
            } else if holds_any(output, any) || kind != CheckKind::Test && text::has(
                text::lowered(output),
                "success"@,
            ) {
                r.outcome == Outcome::Unknown && r.evidence is None
            } else if holds_any(output, bad) {
                r.outcome == Outcome::Failed && cites_first_of(r.evidence, output, bad)
            } else if text::trimmed(output).len() == 0 && kind != CheckKind::Test {
                r.outcome == Outcome::Passed && r.evidence is None
            } else {
                r.outcome == Outcome::Unknown && r.evidence is None
            }
        }),
{
    let own = seq!["build succeeded"@, "compiled successfully"@, "built in "@];
    let any = seq!["all checks passed"@, "no issues found"@, "0 problems"@, "0 errors"@];
    let all = pass_markers(kind);
    let lower = text::lowered(output);
    lemma_first_word_cited(output, all);
    lemma_first_word_cited(output, own_words(kind));
    lemma_first_word_cited(output, fail_markers());
    if holds_any(output, any) {
        let i = choose|i: int| 0 <= i < any.len() && text::has(lower, #[trigger] any[i]);
        assert(all[i] == any[i]);
    }
    if kind == CheckKind::Build && holds_any(output, own) {
        let i = choose|i: int| 0 <= i < own.len() && text::has(lower, #[trigger] own[i]);
        assert(all[4 + i] == own[i]);
    }
    if kind != CheckKind::Test && text::has(lower, "success"@) {
        assert(all[all.len() - 1] == "success"@);
    }
    if holds_any(output, all) {
        let i = choose|i: int| 0 <= i < all.len() && text::has(lower, #[trigger] all[i]);
        if i < 4 {
            assert(any[i] == all[i]);
        } else if kind == CheckKind::Build && i < 7 {
            assert(own[i - 4] == all[i]);
        }
    }
}

/// A number is read from its own group of the match: an optional `+`, then decimal digits and
/// nothing else, up to the largest number that fits. A group that took no part holds none.
pub proof fn law_numbers_are_read_from_their_group(
    groups: Seq<Option<Seq<char>>>,
    n: int,
)
    requires
        0 <= n < groups.len(),
    ensures
        number_of(None, n) is None,
        groups[n] is None ==> number_of(Some(groups), n) is None,
        groups[n] matches Some(t) ==> number_of(Some(groups), n) == text::u32_of(t),
{
}

} // verus!
