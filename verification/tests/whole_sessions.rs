//! Whole sessions, from transcript to report.

use backcheck::evidence::Ledger;
use backcheck::transcript::Transcript;
use backcheck::{analyse, analyse_transcript, claims, lookups, verify};

fn quoted(s: &str) -> String {
    serde_json::Value::String(s.to_string()).to_string()
}

fn call(id: &str, name: &str, input: &[(&str, &str)]) -> String {
    let fields: Vec<String> = input
        .iter()
        .map(|(k, v)| format!("{}:{}", quoted(k), quoted(v)))
        .collect();
    format!(
        "{{\"type\":\"assistant\",\"cwd\":\"/repo\",\"message\":{{\"content\":[{{\"type\":\"tool_use\",\"id\":{},\"name\":{},\"input\":{{{}}}}}]}}}}",
        quoted(id),
        quoted(name),
        fields.join(",")
    )
}

fn bash(id: &str, cmd: &str) -> String {
    call(id, "Bash", &[("command", cmd)])
}

fn result(id: &str, stdout: &str) -> String {
    format!(
        "{{\"type\":\"user\",\"toolUseResult\":{{\"stdout\":{0},\"stderr\":\"\",\"interrupted\":false}},\"message\":{{\"content\":[{{\"type\":\"tool_result\",\"tool_use_id\":{1},\"content\":{0}}}]}}}}",
        quoted(stdout),
        quoted(id)
    )
}

fn plain_result(id: &str, content: &str) -> String {
    format!(
        "{{\"type\":\"user\",\"message\":{{\"content\":[{{\"type\":\"tool_result\",\"tool_use_id\":{},\"content\":{}}}]}}}}",
        quoted(id),
        quoted(content)
    )
}

fn say(text: &str) -> String {
    format!(
        "{{\"type\":\"assistant\",\"message\":{{\"content\":[{{\"type\":\"text\",\"text\":{}}}]}}}}",
        quoted(text)
    )
}

fn edit_auth(id: &str) -> String {
    call(
        id,
        "Edit",
        &[
            ("file_path", "/repo/src/auth.py"),
            ("old_string", "a"),
            ("new_string", "b"),
        ],
    )
}

/// The scenario the tool exists for: the agent claims success, having run nothing.
#[test]
fn catches_a_fabricated_test_claim() {
    let raw = [
        edit_auth("1"),
        plain_result("1", "ok"),
        say("Fixed the bug. All tests pass and I've committed the change."),
    ]
    .join("\n");

    let t = Transcript::parse_str(&raw);
    let r = analyse(&t, "test".into(), &verify::Options::default());

    assert!(r.has_problems());
    let kinds: Vec<_> = r.problems().iter().map(|c| c.claim.kind).collect();
    assert!(kinds.contains(&claims::ClaimKind::TestsPass));
    assert!(kinds.contains(&claims::ClaimKind::Committed));
}

/// The honest case must stay quiet, or nobody will keep the hook installed.
#[test]
fn stays_quiet_when_the_work_was_real() {
    let raw = [
        edit_auth("1"),
        plain_result("1", "ok"),
        bash("2", "pytest -q"),
        result("2", "48 passed in 2.1s"),
        bash("3", "git commit -am 'fix auth'"),
        result("3", "[main 9fc2] fix auth\n 1 file changed"),
        say("Fixed the bug. All tests pass and I've committed the change."),
    ]
    .join("\n");

    let t = Transcript::parse_str(&raw);
    let r = analyse(&t, "test".into(), &verify::Options::default());
    assert!(!r.has_problems(), "false positives: {:?}", r.problems());
}

/// Green tests obtained by disabling the failing one.
#[test]
fn catches_a_suite_that_was_weakened() {
    let raw = [
        call(
            "1",
            "Edit",
            &[
                ("file_path", "/repo/tests/test_auth.py"),
                ("old_string", "def test_login():\n    assert login() == 200"),
                (
                    "new_string",
                    "@pytest.mark.skip(reason=\"flaky\")\ndef test_login():\n    assert login() == 200",
                ),
            ],
        ),
        plain_result("1", "ok"),
        bash("2", "pytest -q"),
        result("2", "47 passed, 1 skipped"),
        say("The suite is green now."),
    ]
    .join("\n");

    let t = Transcript::parse_str(&raw);
    let r = analyse(&t, "test".into(), &verify::Options::default());
    assert!(
        !r.warnings().is_empty(),
        "should flag the added skip marker"
    );
    assert_eq!(r.warnings()[0].kind, "test disabled");
}

#[test]
fn prose_and_evidence_are_kept_apart() {
    let run = [bash("1", "pytest -q"), result("1", "48 passed in 2.1s")];
    let silent = Transcript::parse_str(&run.join("\n"));
    let boast = Transcript::parse_str(
        &[run[0].clone(), run[1].clone(), say("2 failed. git commit -m x")].join("\n"),
    );
    let a = Ledger::build(&silent);
    let b = Ledger::build(&boast);
    assert_eq!(a.checks.len(), 1);
    assert_eq!(b.checks.len(), 1);
    assert_eq!(b.checks[0].passed, a.checks[0].passed);
    assert!(b.git_ops.is_empty());

    let shouting = Transcript::parse_str(
        &[bash("1", "echo hi"), result("1", "All tests pass.")].join("\n"),
    );
    assert!(claims::extract(&shouting).is_empty());
}

#[test]
fn a_report_carries_what_was_seen() {
    let raw = [
        bash("1", "pytest -q && ./all-good"),
        result("1", "48 passed in 2.1s"),
        say("All tests pass."),
    ]
    .join("\n");
    let r = analyse_transcript(&raw, "s.jsonl".into(), &verify::Options::default());
    assert_eq!(r.transcript, "s.jsonl");
    assert_eq!(r.runs_seen, 1);
    assert_eq!(r.seen.len(), 1);
    assert_eq!(r.seen[0].kind, "test");
    assert_eq!(r.seen[0].runner, "pytest");
    assert_eq!(r.seen[0].outcome, "passed");
    assert_eq!(r.seen[0].detail.as_deref(), Some("48 passed in 2.1s"));
    assert_eq!(r.unrecognised, vec!["./all-good"]);
    assert_eq!(r.headline(), "1 claim checked, all supported");
}

#[test]
fn the_directory_of_the_session_is_the_default() {
    let raw = [
        edit_auth("1"),
        say("I've committed the change. Created src/new.rs today."),
    ]
    .join("\n");
    let t = Transcript::parse_str(&raw);
    let opts = verify::Options {
        live: true,
        cwd: None,
        tree_dirty: Some(true),
        existing: vec![],
    };
    let wanted = lookups(&t, &opts);
    assert!(wanted.tree);
    assert_eq!(wanted.files, vec!["src/new.rs"]);
    let r = analyse(&t, "test".into(), &opts);
    assert_eq!(
        r.checked[0].reason,
        "no `git commit` in this session, and the working tree still has uncommitted changes"
    );
    assert_eq!(r.checked[1].verdict, verify::Verdict::Unsupported);
}
