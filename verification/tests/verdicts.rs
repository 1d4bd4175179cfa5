//! Holding claims against evidence.

use backcheck::claims;
use backcheck::claims::{Claim, ClaimKind};
use backcheck::evidence::Ledger;
use backcheck::transcript::Transcript;
use backcheck::verify::{
    check_file_claim, live_lookups, paths_match, short_path, verify, Checked, Options, Verdict,
};

fn quoted(s: &str) -> String {
    serde_json::Value::String(s.to_string()).to_string()
}

fn call(id: &str, name: &str, input: &[(&str, &str)]) -> String {
    let fields: Vec<String> = input
        .iter()
        .map(|(k, v)| format!("{}:{}", quoted(k), quoted(v)))
        .collect();
    format!(
        "{{\"type\":\"assistant\",\"cwd\":\"/repo\",\"message\":{{\"content\":[{{\"type\":\"tool_use\",\"id\":{},\"name\":{},\"input\":{{{}}}}}]}}}}",
        quoted(id),
        quoted(name),
        fields.join(",")
    )
}

fn bash(id: &str, cmd: &str) -> String {
    call(id, "Bash", &[("command", cmd)])
}

fn res(id: &str, stdout: &str) -> String {
    format!(
        "{{\"type\":\"user\",\"toolUseResult\":{{\"stdout\":{0},\"stderr\":\"\",\"interrupted\":false}},\"message\":{{\"content\":[{{\"type\":\"tool_result\",\"tool_use_id\":{1},\"content\":{0}}}]}}}}",
        quoted(stdout),
        quoted(id)
    )
}

fn say(text: &str) -> String {
    format!(
        "{{\"type\":\"assistant\",\"message\":{{\"content\":[{{\"type\":\"text\",\"text\":{}}}]}}}}",
        quoted(text)
    )
}

fn edit(id: &str, path: &str) -> String {
    call(
        id,
        "Edit",
        &[("file_path", path), ("old_string", "a"), ("new_string", "b")],
    )
}

fn run(lines: &[String]) -> Vec<Checked> {
    let t = Transcript::parse_str(&lines.join("\n"));
    let l = Ledger::build(&t);
    let c = claims::extract(&t);
    verify(&c, &l, &Options::default())
}

#[test]
fn passing_run_supports_claim() {
    let v = run(&[
        bash("1", "pytest -q"),
        res("1", "12 passed"),
        say("All tests pass."),
    ]);
    assert_eq!(v[0].verdict, Verdict::Supported);
}

#[test]
fn claim_without_any_run_is_unsupported() {
    let v = run(&[say("All tests pass.")]);
    assert_eq!(v[0].verdict, Verdict::Unsupported);
    assert!(v[0].reason.contains("no test run"));
}

#[test]
fn failing_run_contradicts_claim() {
    let v = run(&[
        bash("1", "pytest -q"),
        res("1", "10 passed, 2 failed"),
        say("All tests pass."),
    ]);
    assert_eq!(v[0].verdict, Verdict::Contradicted);
}

#[test]
fn edits_after_the_run_qualify_the_claim() {
    let v = run(&[
        bash("1", "pytest -q"),
        res("1", "12 passed"),
        edit("2", "/repo/src/main.py"),
        res("2", "ok"),
        say("All tests pass."),
    ]);
    assert_eq!(v[0].verdict, Verdict::Qualified);
    assert!(v[0].reason.contains("changed afterwards"));
}

#[test]
fn test_file_edits_do_not_trigger_staleness() {
    let v = run(&[
        bash("1", "pytest -q"),
        res("1", "12 passed"),
        edit("2", "/repo/tests/test_x.py"),
        res("2", "ok"),
        say("All tests pass."),
    ]);
    assert_eq!(v[0].verdict, Verdict::Supported);
}

#[test]
fn subset_run_qualifies_a_blanket_claim() {
    let v = run(&[
        bash("1", "pytest -k test_login"),
        res("1", "1 passed"),
        say("All tests pass."),
    ]);
    assert_eq!(v[0].verdict, Verdict::Qualified);
}

#[test]
fn run_after_the_claim_does_not_count() {
    let v = run(&[
        say("All tests pass."),
        bash("1", "pytest"),
        res("1", "5 passed"),
    ]);
    assert_eq!(v[0].verdict, Verdict::Unsupported);
}

#[test]
fn commit_claim_checks_git_evidence() {
    let ok = run(&[
        bash("1", "git commit -m 'x'"),
        res("1", "[main abc] x"),
        say("I've committed the changes."),
    ]);
    assert_eq!(ok[0].verdict, Verdict::Supported);

    let bad = run(&[say("I've committed the changes.")]);
    assert_eq!(bad[0].verdict, Verdict::Unsupported);
}

#[test]
fn interrupted_run_does_not_support_claim() {
    let stopped = "{\"type\":\"user\",\"toolUseResult\":{\"stdout\":\"\",\"stderr\":\"\",\"interrupted\":true},\"message\":{\"content\":[{\"type\":\"tool_result\",\"tool_use_id\":\"1\",\"content\":\"\"}]}}";
    let raw = format!(
        "{}\n{}\n{}",
        bash("1", "pytest"),
        stopped,
        say("All tests pass.")
    );
    let t = Transcript::parse_str(&raw);
    let l = Ledger::build(&t);
    let v = verify(&claims::extract(&t), &l, &Options::default());
    assert_eq!(v[0].verdict, Verdict::Unsupported);
}

#[test]
fn matches_loose_file_paths() {
    assert!(paths_match("/repo/src/parser.rs", "src/parser.rs"));
    assert!(paths_match("/repo/src/parser.rs", "parser.rs"));
    assert!(!paths_match("/repo/src/parser.rs", "src/other.rs"));
}

fn run_with(lines: &[String], opts: &Options) -> Vec<Checked> {
    let t = Transcript::parse_str(&lines.join("\n"));
    let l = Ledger::build(&t);
    verify(&claims::extract(&t), &l, opts)
}

fn live(cwd: Option<&str>, tree_dirty: Option<bool>, existing: &[&str]) -> Options {
    Options {
        live: true,
        cwd: cwd.map(String::from),
        tree_dirty,
        existing: existing.iter().map(|s| s.to_string()).collect(),
    }
}

#[test]
fn reasons_for_runs_are_exact() {
    let tests = |cmd: &str, out: &str| {
        let v = run(&[bash("1", cmd), res("1", out), say("All tests pass.")]);
        assert_eq!(v.len(), 1);
        (v[0].reason.clone(), v[0].evidence.clone())
    };
    assert_eq!(
        tests("pytest -q", "12 passed"),
        (
            "`pytest` ran and passed with no edits after it".to_string(),
            Some("12 passed".to_string())
        )
    );
    assert_eq!(
        tests("pytest", "10 passed, 2 failed").0,
        "the last `pytest` run 2 failed, 10 passed"
    );
    assert_eq!(
        tests("pytest", "2 failed").0,
        "the last `pytest` run 2 failed"
    );
    assert_eq!(
        tests("go test ./...", "FAIL\tpkg/b\t0.2s").0,
        "the last `go test` run the run reported failures"
    );
    assert_eq!(
        tests("pytest", "hello").0,
        "`pytest` ran, but its output does not state an outcome backcheck can read"
    );
    assert_eq!(
        tests("pytest -k login", "1 passed").0,
        "`pytest` passed, but only a subset of tests ran (-k)"
    );
    let none = run(&[say("All tests pass.")]);
    assert_eq!(
        none[0].reason,
        "no test run appears anywhere in this session before the claim was made"
    );
    assert_eq!(none[0].evidence, None);
}

#[test]
fn a_blocked_run_never_completed() {
    let blocked = "{\"type\":\"user\",\"message\":{\"content\":[{\"type\":\"tool_result\",\"tool_use_id\":\"1\",\"content\":\"denied\",\"is_error\":true}]}}";
    let v = run(&[
        bash("1", "pytest"),
        blocked.to_string(),
        say("All tests pass."),
    ]);
    assert_eq!(v[0].verdict, Verdict::Unsupported);
    assert_eq!(
        v[0].reason,
        "the last `pytest` run never completed (interrupted or blocked)"
    );
}

#[test]
fn stale_files_are_named() {
    let mut lines = vec![bash("1", "pytest -q"), res("1", "12 passed")];
    for (i, p) in ["/r/src/d.py", "/r/src/a.py", "/r/lib/b.py", "/r/src/c.py", "/r/src/a.py"]
        .iter()
        .enumerate()
    {
        lines.push(edit(&format!("e{i}"), p));
        lines.push(res(&format!("e{i}"), "ok"));
    }
    lines.push(say("All tests pass."));
    assert_eq!(
        run(&lines)[0].reason,
        "`pytest` passed, but 4 files changed afterwards and were never re-tested (lib/b.py, src/a.py, src/c.py, +1 more)"
    );

    let one = run(&[
        bash("1", "pytest -q"),
        res("1", "12 passed"),
        edit("2", "main.py"),
        res("2", "ok"),
        say("All tests pass."),
    ]);
    assert_eq!(
        one[0].reason,
        "`pytest` passed, but 1 file changed afterwards and were never re-tested (main.py)"
    );
}

#[test]
fn editing_documentation_leaves_a_run_current() {
    let v = run(&[
        bash("1", "pytest -q"),
        res("1", "12 passed"),
        edit("2", "/repo/README.md"),
        res("2", "ok"),
        say("All tests pass."),
    ]);
    assert_eq!(v[0].verdict, Verdict::Supported);
}

#[test]
fn a_blanket_claim_is_as_good_as_the_worst_run() {
    let v = run(&[
        bash("1", "pytest -q"),
        res("1", "12 passed"),
        bash("2", "mypy src"),
        res("2", "Found 3 errors in 1 file"),
        say("All checks pass."),
    ]);
    assert_eq!(v[0].verdict, Verdict::Contradicted);
    assert_eq!(v[0].reason, "the last `mypy` run 3 failed");

    let v = run(&[
        bash("1", "pytest -q"),
        res("1", "12 passed"),
        bash("2", "mypy src"),
        res("2", "Success: no issues found in 4 source files"),
        say("All checks pass."),
    ]);
    assert_eq!(v[0].verdict, Verdict::Supported);
    assert_eq!(v[0].evidence.as_deref(), Some("12 passed"));

    let v = run(&[say("All checks pass.")]);
    assert_eq!(v[0].verdict, Verdict::Unsupported);
    assert_eq!(
        v[0].reason,
        "no check run appears anywhere in this session before the claim was made"
    );
}

#[test]
fn git_reasons_are_exact() {
    let v = run(&[
        bash("1", "git push origin main"),
        res("1", " ! [rejected] main -> main"),
        say("Pushed to origin."),
    ]);
    assert_eq!(v[0].verdict, Verdict::Contradicted);
    assert_eq!(v[0].reason, "`git push` ran but did not succeed");
    assert_eq!(v[0].evidence.as_deref(), Some("! [rejected] main -> main"));

    let v = run(&[
        bash("1", "git push"),
        res("1", "To github.com:a/b"),
        say("Pushed to origin."),
    ]);
    assert_eq!(v[0].reason, "a `git push` ran and reported success");
    assert_eq!(
        run(&[say("Pushed to origin.")])[0].reason,
        "no `git push` appears in this session"
    );
}

#[test]
fn the_working_tree_is_consulted_for_commits() {
    let lines = [say("I've committed the changes.")];
    let reason = |opts: &Options| run_with(&lines, opts).remove(0).reason;
    let plain = "no `git commit` appears in this session";
    let dirty = "no `git commit` in this session, and the working tree still has uncommitted changes";
    assert_eq!(reason(&live(Some("/r"), Some(true), &[])), dirty);
    assert_eq!(reason(&live(Some("/r"), Some(false), &[])), plain);
    assert_eq!(reason(&live(Some("/r"), None, &[])), plain);
    assert_eq!(reason(&live(None, Some(true), &[])), plain);
    let mut offline = live(Some("/r"), Some(true), &[]);
    offline.live = false;
    assert_eq!(reason(&offline), plain);
    assert_eq!(
        run_with(&lines, &live(Some("/r"), Some(true), &[]))[0]
            .evidence
            .as_deref(),
        Some("git status --porcelain reports modified files")
    );
}

#[test]
fn file_claims_fall_back_to_the_disk() {
    let lines = [say("Created src/parser.rs with the new logic.")];
    let judge = |opts: &Options| {
        let c = run_with(&lines, opts).remove(0);
        (c.verdict, c.reason)
    };
    assert_eq!(
        judge(&Options::default()),
        (
            Verdict::Inconclusive,
            "no write to `src/parser.rs` recorded; run with --live to check the filesystem"
                .to_string()
        )
    );
    assert_eq!(
        judge(&live(Some("/r"), None, &["src/parser.rs"])),
        (
            Verdict::Supported,
            "`src/parser.rs` exists on disk".to_string()
        )
    );
    assert_eq!(
        judge(&live(Some("/r"), None, &["src/other.rs"])),
        (
            Verdict::Unsupported,
            "`src/parser.rs` was never written in this session and does not exist on disk"
                .to_string()
        )
    );
    assert_eq!(
        judge(&live(None, None, &["src/parser.rs"])).0,
        Verdict::Inconclusive
    );

    let v = run(&[
        edit("1", "/repo/src/parser.rs"),
        res("1", "ok"),
        say("Updated src/parser.rs with the new logic."),
    ]);
    assert_eq!(v[0].verdict, Verdict::Supported);
    assert_eq!(
        v[0].reason,
        "`src/parser.rs` was written by a tool call in this session"
    );
}

#[test]
fn a_file_claim_without_a_path_is_inconclusive() {
    let t = Transcript::parse_str("");
    let l = Ledger::build(&t);
    let c = Claim {
        kind: ClaimKind::FileWritten,
        seq: 1,
        quote: "Wrote it.".into(),
        in_summary: true,
        subject: None,
    };
    let r = check_file_claim(&c, &l, &Options::default());
    assert_eq!(r.verdict, Verdict::Inconclusive);
    assert_eq!(r.reason, "no file path could be read from the claim");
}

#[test]
fn only_what_matters_is_looked_up() {
    let t = Transcript::parse_str(
        &[
            edit("1", "/repo/src/a.rs"),
            res("1", "ok"),
            say("I've committed the changes. Updated src/a.rs today. Created src/b.rs today."),
        ]
        .join("\n"),
    );
    let l = Ledger::build(&t);
    let c = claims::extract(&t);
    let asked = live_lookups(&c, &l, &live(Some("/repo"), None, &[]));
    assert!(asked.tree);
    assert_eq!(asked.files, vec!["src/b.rs"]);
    let offline = live_lookups(&c, &l, &Options::default());
    assert!(!offline.tree);
    assert!(offline.files.is_empty());
}

#[test]
fn every_claim_is_checked_in_order() {
    let v = run(&[say(
        "All tests pass. The build succeeded. Ruff passes. mypy is clean. Pushed to origin.",
    )]);
    let kinds: Vec<ClaimKind> = v.iter().map(|c| c.claim.kind).collect();
    assert_eq!(
        kinds,
        vec![
            ClaimKind::TestsPass,
            ClaimKind::BuildPasses,
            ClaimKind::LintPasses,
            ClaimKind::TypeCheckPasses,
            ClaimKind::Pushed
        ]
    );
    assert!(v.iter().all(|c| c.verdict == Verdict::Unsupported));
}

#[test]
fn verdicts_are_ranked_and_labelled() {
    let all = [
        (Verdict::Supported, "supported", false),
        (Verdict::Inconclusive, "inconclusive", false),
        (Verdict::Qualified, "qualified", true),
        (Verdict::Unsupported, "unsupported", true),
        (Verdict::Contradicted, "contradicted", true),
    ];
    for (i, (v, label, problem)) in all.iter().enumerate() {
        assert_eq!(v.label(), *label);
        assert_eq!(v.is_problem(), *problem);
        assert_eq!(usize::from(v.severity()), i);
    }
}

#[test]
fn paths_are_shortened() {
    assert_eq!(short_path("/repo/src/main.rs"), "src/main.rs");
    assert_eq!(short_path("src/main.rs"), "src/main.rs");
    assert_eq!(short_path("main.rs"), "main.rs");
    assert_eq!(short_path("/a/b/c/"), "b/c");
    assert_eq!(short_path("/a/"), "/a/");
    assert!(paths_match("C:\\repo\\src\\a.rs", "src/a.rs"));
    assert!(paths_match("src/a.rs", "/repo/src/a.rs"));
    assert!(!paths_match("/repo/lib/a.rs", "src/a.rs"));
}

#[test]
fn verdicts_can_be_copied() {
    let v = run(&[say("All tests pass.")]);
    assert_eq!(format!("{:?}", v[0].clone()), format!("{:?}", v[0]));
}
