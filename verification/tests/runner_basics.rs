//! Recognising runners and reading their summaries.

use backcheck::runners::{analyse, split_segments, Caveat, CheckKind, CheckRun, Outcome};

fn one(cmd: &str, out: &str) -> CheckRun {
    let mut r = analyse(1, cmd, out, false, false);
    assert_eq!(r.len(), 1, "expected exactly one run for `{cmd}`");
    r.remove(0)
}

#[test]
fn runners_pytest_pass_and_fail() {
    let ok = one("uv run pytest -q", "1098 passed, 181 warnings in 71.48s");
    assert_eq!(ok.outcome, Outcome::Passed);
    assert_eq!(ok.passed, Some(1098));
    assert!(ok.is_clean_pass());

    let bad = one("pytest", "3 passed, 2 failed in 1.2s");
    assert_eq!(bad.outcome, Outcome::Failed);
    assert_eq!(bad.failed, Some(2));
}

#[test]
fn runners_pytest_collecting_nothing_is_not_a_pass() {
    let r = one(
        "pytest tests/",
        "collected 0 items\n\nno tests ran in 0.01s",
    );
    assert_eq!(r.outcome, Outcome::Failed);
}

#[test]
fn runners_cargo_test_summary() {
    let ok = one(
        "cargo test",
        "test result: ok. 12 passed; 0 failed; 0 ignored",
    );
    assert_eq!(ok.outcome, Outcome::Passed);
    let bad = one(
        "cargo test",
        "test result: FAILED. 10 passed; 2 failed; 0 ignored",
    );
    assert_eq!(bad.outcome, Outcome::Failed);
    assert_eq!(bad.failed, Some(2));
}

#[test]
fn runners_jest_summary() {
    let bad = one("npx jest", "Tests:       1 failed, 4 passed, 5 total");
    assert_eq!(bad.outcome, Outcome::Failed);
    let ok = one("npx jest", "Tests:       5 passed, 5 total");
    assert_eq!(ok.outcome, Outcome::Passed);
}

#[test]
fn runners_go_test_fail_wins() {
    let bad = one("go test ./...", "ok  \tpkg/a\t0.1s\nFAIL\tpkg/b\t0.2s");
    assert_eq!(bad.outcome, Outcome::Failed);
}

#[test]
fn runners_mypy_and_ruff() {
    assert_eq!(
        one(
            "uv run mypy src",
            "Success: no issues found in 73 source files"
        )
        .outcome,
        Outcome::Passed
    );
    assert_eq!(
        one("uv run ruff check .", "All checks passed!").outcome,
        Outcome::Passed
    );
}

#[test]
fn runners_subset_runs_are_caveated() {
    let r = one("pytest -k test_login", "1 passed");
    assert!(r.caveats.iter().any(|c| matches!(c, Caveat::SubsetOnly(_))));

    let f = one("pytest tests/test_auth.py", "4 passed");
    assert!(f.caveats.iter().any(|c| matches!(c, Caveat::SubsetOnly(_))));
}

#[test]
fn runners_interrupted_run_did_not_complete() {
    let r = analyse(1, "pytest", "", true, false).remove(0);
    assert_eq!(r.outcome, Outcome::DidNotComplete);
}

#[test]
fn runners_compound_command_yields_multiple_runs() {
    let runs = analyse(
        1,
        "uv run ruff check . && uv run mypy src && uv run pytest -q",
        "All checks passed!\nSuccess: no issues found in 3 source files\n5 passed",
        false,
        false,
    );
    assert_eq!(runs.len(), 3);
    assert!(runs.iter().any(|r| r.kind == CheckKind::Test));
    assert!(runs.iter().any(|r| r.kind == CheckKind::TypeCheck));
    assert!(runs.iter().any(|r| r.kind == CheckKind::Lint));
}

#[test]
fn runners_quoted_separators_do_not_split() {
    let segs = split_segments("echo 'a && b' && pytest");
    assert_eq!(segs.len(), 2);
}

#[test]
fn runners_pipes_do_not_start_a_new_command() {
    // A single `|` is a pipe; only `||` separates commands.
    let segs = split_segments("pytest -q | tail -20");
    assert_eq!(segs.len(), 1);
}

#[test]
fn runners_handles_multibyte_characters() {
    // Regression: byte-indexing this input used to split a multi-byte character and panic.
    let cmd = "cat <<'EOF'\nPhase 5 — harness sprint, naïve approach 日本語\nEOF\npytest -q";
    let segs = split_segments(cmd);
    assert!(segs.iter().any(|s| s.contains("pytest")));

    let runs = analyse(1, cmd, "5 passed", false, false);
    assert_eq!(runs.len(), 1);
}

#[test]
fn runners_non_check_commands_are_ignored() {
    assert!(analyse(1, "ls -la", "a\nb", false, false).is_empty());
    assert!(analyse(1, "git status", "clean", false, false).is_empty());
}

#[test]
fn runners_shell_test_builtin_is_not_a_test_run() {
    // Regression: `test -f` was read as `npm test`, which would quietly satisfy a
    // "tests pass" claim in a session where no suite ever ran.
    assert!(analyse(1, "test -f /etc/hosts && echo yes", "yes", false, false).is_empty());
    assert!(analyse(1, "test -d build || mkdir build", "", false, false).is_empty());
    assert!(analyse(1, "[ -f x ] && test -x y", "", false, false).is_empty());
}

#[test]
fn runners_js_package_manager_test_scripts_are_recognised() {
    for cmd in [
        "npm test",
        "npm run test",
        "yarn test",
        "pnpm run test",
        "bun test",
    ] {
        let runs = analyse(1, cmd, "Tests:       5 passed, 5 total", false, false);
        assert_eq!(runs.len(), 1, "not recognised: {cmd}");
        assert_eq!(runs[0].kind, CheckKind::Test);
    }
}

#[test]
fn runners_recognises_runners_behind_a_path_or_interpreter() {
    // Regression: real sessions almost never call a runner by its bare name. Missing these
    // made genuine test runs invisible and honest claims look unsupported.
    for cmd in [
        ".venv-test/bin/python -m pytest tests/ -q",
        "/usr/local/bin/python3.12 -m pytest",
        "./node_modules/.bin/jest",
        ".venv/bin/pytest",
        "uvx pytest",
        "poetry run python -m pytest",
    ] {
        let runs = analyse(1, cmd, "5 passed", false, false);
        assert_eq!(runs.len(), 1, "not recognised: {cmd}");
        assert_eq!(runs[0].kind, CheckKind::Test, "wrong kind for: {cmd}");
    }
}

#[test]
fn runners_path_qualified_run_supports_a_claim_cleanly() {
    // A whole-suite run via a venv interpreter must count as a clean pass.
    let r = one(
        ".venv-test/bin/python -m pytest tests/ -q",
        "40 passed in 3.2s",
    );
    assert_eq!(r.outcome, Outcome::Passed);
    assert!(r.is_clean_pass(), "unexpected caveats: {:?}", r.caveats);
}
