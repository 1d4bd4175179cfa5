//! Rendering reports.

use backcheck::claims::{Claim, ClaimKind};
use backcheck::json::Json;
use backcheck::report::{
    history_summary, is_showable, to_document, to_explanation, to_hook_reason, to_json, to_terminal,
    use_color, Report, SeenRun,
};
use backcheck::tamper::{Finding, Severity};
use backcheck::verify::{Checked, Verdict};

fn checked(kind: ClaimKind, verdict: Verdict) -> Checked {
    Checked {
        claim: Claim {
            kind,
            seq: 1,
            quote: "All tests pass.".into(),
            in_summary: true,
            subject: None,
        },
        verdict,
        reason: "no test run appears in this session".into(),
        evidence: None,
    }
}

fn report(checked: Vec<Checked>) -> Report {
    Report {
        session_id: Some("abcd1234efgh".into()),
        transcript: "/tmp/x.jsonl".into(),
        checked,
        findings: vec![],
        runs_seen: 0,
        seen: vec![],
        unrecognised: vec![],
    }
}

#[test]
fn flags_problems() {
    let r = report(vec![checked(ClaimKind::TestsPass, Verdict::Unsupported)]);
    assert!(r.has_problems());
    assert_eq!(r.problems().len(), 1);
}

#[test]
fn clean_report_has_no_problems() {
    let r = report(vec![checked(ClaimKind::TestsPass, Verdict::Supported)]);
    assert!(!r.has_problems());
    assert!(r.headline().contains("all supported"));
}

#[test]
fn inconclusive_is_not_counted_as_supported() {
    // Regression: a report with three supported claims and one inconclusive one
    // summarised itself as "4 claims checked, all supported", overstating the check.
    let r = report(vec![
        checked(ClaimKind::TestsPass, Verdict::Supported),
        checked(ClaimKind::LintPasses, Verdict::Supported),
        checked(ClaimKind::Committed, Verdict::Supported),
        checked(ClaimKind::BuildPasses, Verdict::Inconclusive),
    ]);
    let head = r.headline();
    assert!(!r.has_problems(), "inconclusive is not a problem");
    assert!(
        !head.contains("all supported"),
        "must not claim everything was verified: {head}"
    );
    assert!(head.contains("3 claims supported"), "got: {head}");
    assert!(head.contains("1 could not be checked"), "got: {head}");
}

#[test]
fn json_is_valid_and_complete() {
    let r = report(vec![checked(ClaimKind::TestsPass, Verdict::Unsupported)]);
    let v: serde_json::Value = serde_json::from_str(&to_json(&r)).unwrap();
    assert_eq!(v["summary"]["problems"], 1);
    assert_eq!(v["claims"][0]["verdict"], "unsupported");
}

#[test]
fn terminal_output_is_plain_without_color() {
    let r = report(vec![checked(ClaimKind::TestsPass, Verdict::Unsupported)]);
    let s = to_terminal(&r, false, false);
    assert!(!s.contains('\x1b'));
    assert!(s.contains("unsupported"));
}

#[test]
fn hook_reason_names_each_problem() {
    let r = report(vec![checked(ClaimKind::TestsPass, Verdict::Unsupported)]);
    let s = to_hook_reason(&r);
    assert!(s.contains("tests pass"));
    assert!(s.contains("no test run"));
}

fn finding(severity: Severity) -> Finding {
    Finding {
        severity,
        seq: 3,
        path: "tests/test_a.py".into(),
        kind: "test disabled",
        detail: "1 skip/ignore marker added to a test file".into(),
        snippet: Some("@pytest.mark.skip".into()),
    }
}

fn seen(runner: &str, outcome: &'static str, detail: Option<&str>) -> SeenRun {
    SeenRun {
        kind: "test",
        runner: runner.into(),
        outcome,
        detail: detail.map(String::from),
    }
}

#[test]
fn headlines_are_exact() {
    assert_eq!(report(vec![]).headline(), "no verifiable claims were made");
    let ok = || checked(ClaimKind::TestsPass, Verdict::Supported);
    let bad = || checked(ClaimKind::TestsPass, Verdict::Qualified);
    assert_eq!(report(vec![ok()]).headline(), "1 claim checked, all supported");
    assert_eq!(
        report(vec![ok(), ok()]).headline(),
        "2 claims checked, all supported"
    );
    assert_eq!(
        report(vec![ok(), bad()]).headline(),
        "1 claim not fully supported"
    );
    let mut r = report(vec![bad(), bad()]);
    r.findings = vec![finding(Severity::Warning), finding(Severity::Notice)];
    assert_eq!(
        r.headline(),
        "2 claims not fully supported, 1 sign the test suite was weakened"
    );
    r.checked = vec![ok()];
    r.findings = vec![finding(Severity::Warning), finding(Severity::Warning)];
    assert_eq!(r.headline(), "2 signs the test suite was weakened");
    assert!(r.has_problems());
    r.findings = vec![finding(Severity::Notice)];
    assert!(!r.has_problems());
    assert_eq!(r.headline(), "1 claim checked, all supported");
    assert_eq!(
        report(vec![ok(), checked(ClaimKind::Pushed, Verdict::Inconclusive)]).headline(),
        "1 claim supported, 1 could not be checked"
    );
}

#[test]
fn terminal_output_is_exact() {
    let mut r = report(vec![
        checked(ClaimKind::TestsPass, Verdict::Supported),
        checked(ClaimKind::LintPasses, Verdict::Inconclusive),
        checked(ClaimKind::Committed, Verdict::Contradicted),
    ]);
    r.checked[2].evidence = Some("fatal: no".into());
    r.findings = vec![finding(Severity::Warning)];
    assert_eq!(
        to_terminal(&r, false, false),
        "\nbackcheck  session abcd1234\n  /tmp/x.jsonl\n\n  Claims\n  ✗ contradicted  changes committed\n      “All tests pass.”\n      no test run appears in this session\n      evidence: fatal: no\n\n  ? inconclusive  lint passes\n      “All tests pass.”\n      no test run appears in this session\n\n  (1 supported claim(s) hidden; use --verbose to show)\n\n  Test integrity\n  ! test disabled  tests/test_a.py\n      1 skip/ignore marker added to a test file\n      @pytest.mark.skip\n\n  1 claim not fully supported, 1 sign the test suite was weakened\n\n"
    );
    let verbose = to_terminal(&r, false, true);
    assert!(verbose.contains("  ✓ supported    tests pass\n"));
    assert!(!verbose.contains("hidden"));
    assert!(!verbose.contains('\x1b'));
}

#[test]
fn an_empty_session_says_so() {
    let mut r = report(vec![]);
    r.session_id = Some("short".into());
    assert_eq!(
        to_terminal(&r, false, false),
        "\nbackcheck  session short\n  /tmp/x.jsonl\n\n  No verifiable claims were made in this session.\n\n"
    );
    r.session_id = None;
    assert_eq!(
        to_terminal(&r, true, false),
        "\n\u{1b}[1mbackcheck\u{1b}[0m\n\u{1b}[2m  /tmp/x.jsonl\n\n\u{1b}[0m\u{1b}[2m  No verifiable claims were made in this session.\n\n\u{1b}[0m"
    );
}

#[test]
fn a_session_name_is_cut_between_characters() {
    let mut r = report(vec![]);
    r.session_id = Some("ééééé".into());
    assert!(is_showable(&r));
    assert!(to_terminal(&r, false, false).contains("session éééé\n"));
    r.session_id = Some("aééééé".into());
    assert!(!is_showable(&r));
    r.session_id = None;
    assert!(is_showable(&r));
}

#[test]
fn problems_come_before_the_rest() {
    let r = report(vec![
        checked(ClaimKind::TestsPass, Verdict::Supported),
        checked(ClaimKind::LintPasses, Verdict::Qualified),
        checked(ClaimKind::BuildPasses, Verdict::Contradicted),
        checked(ClaimKind::Committed, Verdict::Inconclusive),
        checked(ClaimKind::Pushed, Verdict::Unsupported),
    ]);
    let s = to_terminal(&r, false, true);
    let at = |what: &str| s.find(what).unwrap();
    assert!(at("build succeeds") < at("changes pushed"));
    assert!(at("changes pushed") < at("lint passes"));
    assert!(at("lint passes") < at("changes committed"));
    assert!(at("changes committed") < at("✓ supported"));
}

#[test]
fn json_is_exact() {
    let mut r = report(vec![checked(ClaimKind::TestsPass, Verdict::Unsupported)]);
    r.findings = vec![finding(Severity::Notice)];
    r.findings[0].snippet = None;
    r.runs_seen = 1;
    r.seen = vec![seen("pytest", "passed", Some("5 passed"))];
    r.unrecognised = vec!["ls".into()];
    let expected = r#"{
  "session_id": "abcd1234efgh",
  "transcript": "/tmp/x.jsonl",
  "summary": {
    "claims_checked": 1,
    "problems": 1,
    "warnings": 0,
    "check_runs_seen": 1,
    "headline": "1 claim not fully supported"
  },
  "claims": [
    {
      "kind": "tests pass",
      "verdict": "unsupported",
      "reason": "no test run appears in this session",
      "quote": "All tests pass.",
      "in_final_message": true,
      "evidence": null
    }
  ],
  "test_integrity": [
    {
      "severity": "notice",
      "kind": "test disabled",
      "path": "tests/test_a.py",
      "detail": "1 skip/ignore marker added to a test file",
      "snippet": null
    }
  ],
  "checks_seen": [
    {
      "kind": "test",
      "runner": "pytest",
      "outcome": "passed",
      "evidence": "5 passed"
    }
  ],
  "unrecognised_commands": [
    "ls"
  ]
}"#;
    assert_eq!(to_json(&r), expected);
}

#[test]
fn hook_reasons_are_exact() {
    let mut r = report(vec![
        checked(ClaimKind::TestsPass, Verdict::Unsupported),
        checked(ClaimKind::Pushed, Verdict::Supported),
    ]);
    r.findings = vec![finding(Severity::Warning), finding(Severity::Notice)];
    assert_eq!(
        to_hook_reason(&r),
        "backcheck reviewed this session's transcript and could not verify some of what was reported:\n\n- tests pass (unsupported): no test run appears in this session\n  claimed: “All tests pass.”\n- test integrity: test disabled in tests/test_a.py — 1 skip/ignore marker added to a test file\n\nPlease resolve each point: run the checks you referred to, or correct the summary so it matches what actually happened."
    );
}

#[test]
fn explanations_are_exact() {
    let mut r = report(vec![]);
    assert_eq!(
        to_explanation(&r, false),
        "  What backcheck saw\n    no checks recognised in this session\n\n"
    );
    r.seen = vec![
        seen("pytest", "passed", Some("5 passed")),
        seen("jest", "failed", None),
        seen("go test", "did not complete", None),
        seen("mypy", "unreadable", None),
    ];
    r.unrecognised = (0..17).map(|i| format!("step {i}")).collect();
    let s = to_explanation(&r, false);
    assert!(s.starts_with(
        "  What backcheck saw\n    passed            pytest (test)\n        5 passed\n    failed            jest (test)\n    did not complete  go test (test)\n    unreadable        mypy (test)\n\n  Ran, but not recognised as a check\n"
    ));
    assert!(s.ends_with("    step 14\n    (+2 more)\n\n"));
    assert!(to_explanation(&r, true).contains("\u{1b}[32;1mpassed          \u{1b}[0m"));
}

#[test]
fn history_is_summed_up() {
    assert_eq!(
        history_summary(0, 1),
        "\nRead 1 session. Nothing in them went unsupported.\n"
    );
    assert_eq!(
        history_summary(0, 20),
        "\nRead 20 sessions. Nothing in them went unsupported.\n"
    );
    assert_eq!(
        history_summary(1, 20),
        "1 session of 20 had something worth a look.\n"
    );
    assert_eq!(
        history_summary(3, 4),
        "3 sessions of 4 had something worth a look.\n"
    );
}

#[test]
fn color_is_used_only_where_it_is_wanted() {
    let term = |t: &str| Some(t.to_string());
    assert!(use_color(false, false, &term("xterm")));
    assert!(!use_color(true, false, &term("xterm")));
    assert!(!use_color(false, true, &term("xterm")));
    assert!(!use_color(false, false, &term("dumb")));
    assert!(!use_color(false, false, &None));
}

fn without_escapes(s: &str) -> String {
    let mut out = String::new();
    let mut inside = false;
    for c in s.chars() {
        if c == '\x1b' {
            inside = true;
        }
        if !inside {
            out.push(c);
        }
        if c == 'm' {
            inside = false;
        }
    }
    out
}

#[test]
fn color_never_changes_the_text() {
    let mut r = report(vec![
        checked(ClaimKind::TestsPass, Verdict::Supported),
        checked(ClaimKind::LintPasses, Verdict::Qualified),
        checked(ClaimKind::Committed, Verdict::Contradicted),
    ]);
    r.checked[2].evidence = Some("fatal: no".into());
    r.findings = vec![finding(Severity::Warning), finding(Severity::Notice)];
    for verbose in [false, true] {
        let colored = to_terminal(&r, true, verbose);
        assert!(colored.contains('\x1b'));
        assert_eq!(without_escapes(&colored), to_terminal(&r, false, verbose));
    }
}

#[test]
fn json_reads_back_as_the_document() {
    let mut r = report(vec![checked(ClaimKind::TestsPass, Verdict::Unsupported)]);
    r.findings = vec![finding(Severity::Notice)];
    r.runs_seen = 12;
    r.seen = vec![seen("pytest", "passed", Some("5 \"passed\"\n"))];
    let read = Json::parse(&to_json(&r)).unwrap();
    let summary = read.get("summary").unwrap();
    assert!(matches!(summary.get("check_runs_seen"), Some(Json::Number(n)) if n == "12"));
    let seen = read.get("checks_seen").unwrap().as_array().unwrap();
    assert_eq!(
        seen[0].to_text(),
        r#"{"evidence":"5 \"passed\"\n","kind":"test","outcome":"passed","runner":"pytest"}"#
    );
    assert_eq!(to_document(&r).get("claims").unwrap().as_array().unwrap().len(), 1);
}
