//! What tool calls prove.

use backcheck::evidence::{is_documentation, is_test_path, unrecognised, GitOpKind, Ledger};
use backcheck::runners::CheckKind;
use backcheck::transcript::Transcript;

fn quoted(s: &str) -> String {
    serde_json::Value::String(s.to_string()).to_string()
}

fn call(id: &str, name: &str, input: &[(&str, &str)]) -> String {
    let fields: Vec<String> = input
        .iter()
        .map(|(k, v)| format!("{}:{}", quoted(k), quoted(v)))
        .collect();
    format!(
        "{{\"type\":\"assistant\",\"cwd\":\"/repo\",\"message\":{{\"content\":[{{\"type\":\"tool_use\",\"id\":{},\"name\":{},\"input\":{{{}}}}}]}}}}",
        quoted(id),
        quoted(name),
        fields.join(",")
    )
}

fn bash(id: &str, cmd: &str) -> String {
    call(id, "Bash", &[("command", cmd)])
}

fn result(id: &str, stdout: &str) -> String {
    format!(
        "{{\"type\":\"user\",\"toolUseResult\":{{\"stdout\":{0},\"stderr\":\"\",\"interrupted\":false}},\"message\":{{\"content\":[{{\"type\":\"tool_result\",\"tool_use_id\":{1},\"content\":{0}}}]}}}}",
        quoted(stdout),
        quoted(id)
    )
}

fn edit(id: &str, path: &str, old: &str, new: &str) -> String {
    call(
        id,
        "Edit",
        &[("file_path", path), ("old_string", old), ("new_string", new)],
    )
}

fn ledger_from(lines: &[String]) -> Ledger {
    Ledger::build(&Transcript::parse_str(&lines.join("\n")))
}

#[test]
fn records_test_runs() {
    let l = ledger_from(&[bash("1", "pytest -q"), result("1", "5 passed")]);
    assert_eq!(l.checks.len(), 1);
    assert!(l.has_clean_pass(CheckKind::Test));
}

#[test]
fn records_git_commit_success_and_failure() {
    let ok = ledger_from(&[
        bash("1", "git commit -m x"),
        result("1", "[main abc123] x\n 1 file changed"),
    ]);
    assert!(ok.last_git_op(GitOpKind::Commit).unwrap().succeeded);

    let bad = ledger_from(&[
        bash("1", "git commit -m x"),
        result("1", "nothing to commit"),
    ]);
    assert!(!bad.last_git_op(GitOpKind::Commit).unwrap().succeeded);
}

#[test]
fn tracks_writes_and_distinguishes_test_files() {
    let l = ledger_from(&[
        edit("1", "/repo/src/main.rs", "a", "b"),
        result("1", "ok"),
        edit("2", "/repo/tests/test_main.py", "c", "d"),
        result("2", "ok"),
    ]);
    assert_eq!(l.writes.len(), 2);
    assert!(!l.writes[0].is_test_file());
    assert!(l.writes[1].is_test_file());
    assert_eq!(l.last_source_write().unwrap().path, "/repo/src/main.rs");
}

#[test]
fn detects_edits_after_a_test_run() {
    let l = ledger_from(&[
        bash("1", "pytest"),
        result("1", "5 passed"),
        edit("2", "/repo/src/main.rs", "a", "b"),
        result("2", "ok"),
    ]);
    let run = l.last_check(CheckKind::Test).unwrap();
    assert_eq!(l.writes_after(run.seq).len(), 1);
}

#[test]
fn test_path_heuristics() {
    assert!(is_test_path("tests/test_foo.py"));
    assert!(is_test_path("src/foo.test.ts"));
    assert!(is_test_path("pkg/foo_test.go"));
    assert!(is_test_path("spec/models/user_spec.rb"));
    assert!(!is_test_path("src/latest.rs"));
    assert!(!is_test_path("src/contest.py"));
}

#[test]
fn documentation_is_told_from_code() {
    for p in ["README.md", "/repo/LICENSE", "docs\\a.RST", "x.PNG", "/a/.gitignore", "data.csv"] {
        assert!(is_documentation(p), "{p}");
    }
    for p in ["Cargo.toml", "Cargo.lock", "src/md", "main.rs", "licenses", "a.md/b.rs"] {
        assert!(!is_documentation(p), "{p}");
    }
}

#[test]
fn test_paths_are_told_by_name_or_directory() {
    for p in [
        "TEST_A.PY", "a_test.py", "a_test.rs", "a.spec.js", "/r/test/x.c", "/r/spec/x", "test/x",
        "a\\test_b.py",
    ] {
        assert!(is_test_path(p), "{p}");
    }
    for p in ["", "mytests/x.c", "spec/x.c", "attest.py", "testing/x"] {
        assert!(!is_test_path(p), "{p}");
    }
}

#[test]
fn writes_are_recorded_as_they_were_made() {
    let l = ledger_from(&[
        call("1", "Write", &[("file_path", "/r/a.rs"), ("content", "fn a() {}")]),
        result("1", "ok"),
        edit("2", "/r/b.rs", "x", "y"),
        call("3", "Write", &[("content", "no path")]),
        result("3", "ok"),
        call("4", "Read", &[("file_path", "/r/c.rs")]),
        result("4", "ok"),
    ]);
    assert_eq!(l.writes.len(), 2);
    assert_eq!(l.writes[0].tool, "Write");
    assert_eq!(l.writes[0].new_string.as_deref(), Some("fn a() {}"));
    assert_eq!(l.writes[0].old_string, None);
    assert!(l.writes[0].succeeded);
    assert_eq!(l.writes[1].old_string.as_deref(), Some("x"));
    assert!(!l.writes[1].succeeded, "no result was recorded");
    assert_eq!(l.last_source_write().unwrap().path, "/r/a.rs");
}

#[test]
fn runs_are_looked_up_by_kind() {
    let l = ledger_from(&[
        bash("1", "pytest"),
        result("1", "1 failed, 4 passed"),
        bash("2", "mypy src"),
        result("2", "Success: no issues found in 4 source files"),
        bash("3", "pytest"),
        result("3", "5 passed"),
    ]);
    assert_eq!(l.checks_of(CheckKind::Test).len(), 2);
    assert_eq!(l.last_check(CheckKind::Test).unwrap().passed, Some(5));
    assert!(l.has_failure(CheckKind::Test));
    assert!(l.has_clean_pass(CheckKind::Test));
    assert!(!l.has_failure(CheckKind::TypeCheck));
    assert!(l.last_check(CheckKind::Build).is_none());
    assert!(!l.has_clean_pass(CheckKind::Lint));
}

#[test]
fn git_operations_are_found_inside_a_chain() {
    let l = ledger_from(&[
        bash("1", "cd /r && GIT commit -m 'a; b' && sudo git push"),
        result("1", "\n[main 1] a\n"),
    ]);
    assert_eq!(l.git_ops.len(), 2);
    assert_eq!(l.git_ops[0].kind, GitOpKind::Commit);
    assert_eq!(l.git_ops[0].command, "GIT commit -m 'a; b'");
    assert_eq!(l.git_ops[0].output_line.as_deref(), Some("[main 1] a"));
    assert_eq!(l.git_ops[1].kind, GitOpKind::Push);
    assert!(l.last_git_op(GitOpKind::Push).unwrap().succeeded);
}

#[test]
fn steps_that_are_not_checks_are_listed() {
    let t = Transcript::parse_str(
        &[bash("1", "cd /r && pytest -q; ./verify-all"), bash("2", "ls")].join("\n"),
    );
    assert_eq!(unrecognised(&t), vec!["cd /r", "./verify-all", "ls"]);
}

#[test]
fn records_can_be_copied() {
    let l = ledger_from(&[
        bash("1", "pytest -k a; git commit -m x"),
        result("1", "5 passed"),
        edit("2", "/r/a.rs", "x", "y"),
        result("2", "ok"),
    ]);
    assert_eq!(format!("{:?}", l.checks[0].clone()), format!("{:?}", l.checks[0]));
    assert_eq!(format!("{:?}", l.git_ops[0].clone()), format!("{:?}", l.git_ops[0]));
    assert_eq!(format!("{:?}", l.writes[0].clone()), format!("{:?}", l.writes[0]));
}
