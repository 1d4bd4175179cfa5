//! Commands: their steps, their wrappers, their caveats and their share of the output.

use backcheck::runners::classify::{
    caveats_for, covers_a_directory, reported_subset, suppression_caveats, targets_specific_tests,
};
use backcheck::runners::command::{
    attribute_output, echo_literal, split_with_joins, strip_directory, strip_invocation, Join,
};
use backcheck::runners::outcome::{generic_outcome, parse_outcome};
use backcheck::runners::{
    analyse, classify, infer_from_short_circuit, Caveat, CheckKind, CheckRun, Outcome,
};

fn steps(command: &str) -> Vec<(String, Join)> {
    split_with_joins(command)
}

fn texts(items: &[&str]) -> Vec<String> {
    items.iter().map(|s| s.to_string()).collect()
}

fn read(runner: &str, kind: CheckKind, output: &str) -> (Outcome, Option<u32>, Option<u32>, Option<String>) {
    let r = parse_outcome(runner, kind, output, true);
    (r.outcome, r.passed, r.failed, r.evidence)
}

fn line(s: &str) -> Option<String> {
    Some(s.to_string())
}

#[test]
fn commands_split_at_their_joins() {
    let s = |t: &str| t.to_string();
    assert_eq!(
        steps("a && b || c ; d\ne"),
        vec![
            (s("a"), Join::AndThen),
            (s("b"), Join::OrElse),
            (s("c"), Join::Then),
            (s("d"), Join::Then),
            (s("e"), Join::Then),
        ]
    );
    assert_eq!(
        steps("pytest -q | tail -3"),
        vec![(s("pytest -q | tail -3"), Join::Then)]
    );
    assert_eq!(
        steps("echo 'a && b; \"c' \"d || 'e\" && f"),
        vec![
            (s("echo 'a && b; \"c' \"d || 'e\""), Join::AndThen),
            (s("f"), Join::Then)
        ]
    );
    assert_eq!(steps(" ; ;; \n "), vec![]);
    assert_eq!(steps("sleep 1 & é&&ü"), vec![(s("sleep 1 & é"), Join::AndThen), (s("ü"), Join::Then)]);
}

#[test]
fn wrappers_are_stripped() {
    for (raw, tool) in [
        ("uv run pytest -q", "pytest -q"),
        (".venv/bin/python -m pytest tests", "pytest tests"),
        ("./node_modules/.bin/jest --ci", "jest --ci"),
        ("timeout --signal=KILL 30 sudo cargo test", "cargo test"),
        ("timeout 240s uv run python3.12 -m pytest", "pytest"),
        ("time env nice npx tsc -b", "tsc -b"),
        ("  pytest  ", "pytest"),
        ("", ""),
        ("C:\\tools\\ruff.exe check", "ruff.exe check"),
    ] {
        let stripped = strip_invocation(raw);
        assert_eq!(stripped, tool, "{raw}");
        assert_eq!(strip_invocation(&stripped), stripped);
    }
    assert_eq!(strip_directory("a/b\tc d"), "b c d");
    assert_eq!(strip_directory("plain a/b"), "plain a/b");
}

#[test]
fn landmarks_are_plain_echoes() {
    assert_eq!(echo_literal("echo \"=== lint ===\"").as_deref(), Some("=== lint ==="));
    assert_eq!(echo_literal(" echo done ").as_deref(), Some("done"));
    for none in ["echo $X is", "echo `date`", "echo -n abc", "echo ab", "echoes", "printf abc"] {
        assert_eq!(echo_literal(none), None, "{none}");
    }
}

#[test]
fn output_is_shared_out_at_landmarks() {
    let segments = texts(&["pytest", "echo \"== lint ==\"", "ruff check ."]);
    let r = attribute_output(&segments, "5 passed\n== lint ==\nAll checks passed!\n");
    assert_eq!(r.len(), 3);
    assert_eq!(r[0].text, "5 passed\n");
    assert_eq!(r[2].text, "\nAll checks passed!\n");
    assert!(r[0].exclusive && r[2].exclusive);

    let shared = attribute_output(&texts(&["pytest", "ruff check ."]), "out");
    assert_eq!(shared[0].text, "out");
    assert!(!shared[0].exclusive);

    let single = attribute_output(&texts(&["pytest"]), "out");
    assert_eq!(single[0].text, "out");
    assert!(single[0].exclusive);
}

#[test]
fn runners_are_told_by_command() {
    for (command, kind, runner) in [
        ("pytest", CheckKind::Test, "pytest"),
        ("yarn test --ci", CheckKind::Test, "npm test"),
        ("bun run test", CheckKind::Test, "npm test"),
        ("make check", CheckKind::Test, "make test"),
        ("gh pr checks 4", CheckKind::Test, "ci checks"),
        ("gh run list", CheckKind::Test, "ci run"),
        ("mypy .", CheckKind::TypeCheck, "mypy"),
        ("cargo check", CheckKind::TypeCheck, "cargo check"),
        ("cargo clippy", CheckKind::Lint, "clippy"),
        ("cargo fmt --check", CheckKind::Lint, "format check"),
        ("pre-commit run -a", CheckKind::Lint, "pre-commit"),
        ("python -m build", CheckKind::Build, "python build"),
        ("docker build .", CheckKind::Build, "docker build"),
        ("sphinx-build docs out", CheckKind::Build, "sphinx"),
    ] {
        assert_eq!(classify(command), Some((kind, runner.to_string())), "{command}");
    }
    assert_eq!(classify("ls tests"), None);
    assert_eq!(classify(""), None);
}

#[test]
fn flags_qualify_a_run() {
    assert_eq!(
        caveats_for("pytest -k login -x | head -5", CheckKind::Test),
        vec![
            Caveat::SubsetOnly("-k".into()),
            Caveat::StopsEarly("-x".into()),
            Caveat::OutputFiltered("| head".into())
        ]
    );
    assert_eq!(
        caveats_for("ruff -x |grep a", CheckKind::Lint),
        vec![Caveat::OutputFiltered("|grep".into())]
    );
    assert_eq!(
        suppression_caveats("SET +E; pytest || true"),
        vec![
            Caveat::FailureSuppressed("|| true".into()),
            Caveat::FailureSuppressed("set +e".into())
        ]
    );
    assert_eq!(
        suppression_caveats("pytest; exit 0"),
        vec![Caveat::FailureSuppressed("; exit 0".into())]
    );
    assert!(suppression_caveats("pytest").is_empty());
}

#[test]
fn subsets_are_read_from_arguments_and_output() {
    assert!(targets_specific_tests("pytest tests/test_a.py").is_some());
    assert!(targets_specific_tests("pytest").is_none());
    assert!(covers_a_directory("pytest tests/"));
    assert_eq!(
        reported_subset("ok. 3 passed; 0 failed; 1584 filtered out"),
        Some(Caveat::SubsetOnly("1584 tests filtered out".into()))
    );
    assert_eq!(reported_subset("0 filtered out"), None);
}

#[test]
fn caveats_are_described() {
    assert_eq!(
        Caveat::SubsetOnly("-k".into()).describe(),
        "only a subset of tests ran (-k)"
    );
    assert_eq!(
        Caveat::StopsEarly("-x".into()).describe(),
        "run stops at first failure (-x)"
    );
    assert_eq!(
        Caveat::FailureSuppressed("|| true".into()).describe(),
        "a non-zero exit would be hidden by `|| true`"
    );
    assert_eq!(
        Caveat::OutputFiltered("| head".into()).describe(),
        "output was filtered through `| head`"
    );
    assert_eq!(Caveat::NoTestsRan.describe(), "the runner collected no tests");
}

#[test]
fn summaries_are_read_exactly() {
    assert_eq!(
        read("pytest", CheckKind::Test, "x\n 3 passed, 1 error \n"),
        (Outcome::Failed, Some(3), Some(1), line("3 passed, 1 error"))
    );
    assert_eq!(
        read("pytest", CheckKind::Test, "collected 0 items\nno tests ran"),
        (Outcome::Failed, Some(0), None, line("no tests ran"))
    );
    assert_eq!(
        read("cargo test", CheckKind::Test, "test result: ok. 2 passed; 0 failed"),
        (Outcome::Passed, Some(2), Some(0), line("test result: ok. 2 passed; 0 failed"))
    );
    assert_eq!(
        read("cargo test", CheckKind::Test, "error[E0432]: x\n"),
        (Outcome::Failed, None, None, line("error[E0432]: x"))
    );
    assert_eq!(read("go test", CheckKind::Test, "ok  \ta\t0.1s"), (Outcome::Passed, None, None, line("ok  \ta\t0.1s")));
    assert_eq!(
        read("jest", CheckKind::Test, "Tests: 2 failed, 1 skipped, 5 passed"),
        (Outcome::Failed, Some(5), Some(2), line("Tests: 2 failed, 1 skipped, 5 passed"))
    );
    assert_eq!(read("jest", CheckKind::Test, "PASS a.js"), (Outcome::Passed, None, None, line("PASS a.js")));
    assert_eq!(
        read("mocha", CheckKind::Test, "4 passing\n1 failing"),
        (Outcome::Failed, Some(4), Some(1), line("4 passing"))
    );
    assert_eq!(
        read("rspec", CheckKind::Test, "3 examples, 0 failures"),
        (Outcome::Passed, Some(3), Some(0), line("3 examples, 0 failures"))
    );
    assert_eq!(
        read("mypy", CheckKind::TypeCheck, "Found 2 errors in 1 file"),
        (Outcome::Failed, None, Some(2), line("Found 2 errors in 1 file"))
    );
    assert_eq!(
        read("tsc", CheckKind::TypeCheck, "a error TS1\nb error TS22"),
        (Outcome::Failed, None, Some(2), line("b error TS22"))
    );
    assert_eq!(read("tsc", CheckKind::TypeCheck, "anything"), (Outcome::Passed, None, Some(0), None));
    assert_eq!(
        read("ruff", CheckKind::Lint, "Found 3 errors (2 fixed, 1 remaining)."),
        (Outcome::Failed, None, Some(1), line("Found 3 errors (2 fixed, 1 remaining)."))
    );
    assert_eq!(
        read("import-linter", CheckKind::Lint, "Contracts: 1 kept, 2 broken."),
        (Outcome::Failed, None, Some(2), line("Contracts: 1 kept, 2 broken."))
    );
    assert_eq!(
        read("pre-commit", CheckKind::Lint, "a...Passed\nb...Failed"),
        (Outcome::Failed, None, None, line("b...Failed"))
    );
    assert_eq!(
        read("cargo build", CheckKind::Build, "   Compiling a\n    Finished dev"),
        (Outcome::Passed, None, Some(0), line("Finished dev"))
    );
    assert_eq!(
        read("npm build", CheckKind::Build, "✓ built in 1.04s"),
        (Outcome::Passed, None, Some(0), line("✓ built in 1.04s"))
    );
    assert_eq!(
        read("docker build", CheckKind::Build, "naming to x\nDONE 1"),
        (Outcome::Passed, None, Some(0), line("naming to x"))
    );
    assert_eq!(
        read("python build", CheckKind::Build, "Successfully built a.whl"),
        (Outcome::Passed, None, Some(0), line("Successfully built a.whl"))
    );
    assert_eq!(
        read("mkdocs", CheckKind::Build, "INFO - Documentation built in 0.2 seconds"),
        (Outcome::Passed, None, Some(0), line("INFO - Documentation built in 0.2 seconds"))
    );
    assert_eq!(
        read("ci checks", CheckKind::Test, "a\tpass\t1s\nb\tfail\t2s"),
        (Outcome::Failed, Some(1), Some(1), line("b: fail"))
    );
    assert_eq!(
        read("ci run", CheckKind::Test, "completed\tsuccess\tx\ncompleted\tfailure\ty"),
        (Outcome::Passed, Some(1), Some(0), line("completed\tsuccess\tx"))
    );
    assert_eq!(read("ci run", CheckKind::Test, "in_progress\t\tx"), (Outcome::Unknown, None, None, None));
}

#[test]
fn weak_signals_need_an_owner() {
    let shared = |kind: CheckKind, out: &str| parse_outcome("eslint", kind, out, false).outcome;
    let owned = |kind: CheckKind, out: &str| parse_outcome("eslint", kind, out, true).outcome;
    assert_eq!(owned(CheckKind::Lint, "LINT CLEAN"), Outcome::Passed);
    assert_eq!(shared(CheckKind::Lint, "LINT CLEAN"), Outcome::Unknown);
    assert_eq!(owned(CheckKind::Test, "LINT CLEAN"), Outcome::Unknown);
    assert_eq!(owned(CheckKind::Lint, "1172 passed"), Outcome::Unknown);
    assert_eq!(owned(CheckKind::Lint, ""), Outcome::Passed);
    assert_eq!(owned(CheckKind::Test, ""), Outcome::Unknown);
}

#[test]
fn counts_too_large_to_read_are_left_out() {
    let r = analyse(1, "pytest", "99999999999 passed", false, false);
    assert_eq!(r[0].outcome, Outcome::Unknown);
    assert_eq!(r[0].passed, None);
}

fn unread(runner: &str) -> CheckRun {
    CheckRun {
        seq: 1,
        kind: CheckKind::Lint,
        runner: runner.into(),
        command: runner.into(),
        outcome: Outcome::Unknown,
        caveats: vec![],
        passed: None,
        failed: None,
        evidence_line: None,
    }
}

#[test]
fn a_later_step_vouches_for_an_unbroken_chain() {
    let chain = |command: &str| {
        let mut runs = vec![unread("ruff"), unread("mypy")];
        runs[1].outcome = Outcome::Failed;
        infer_from_short_circuit(&mut runs, &vec![0, 1], &steps(command), "out");
        runs.remove(0)
    };
    let sure = chain("ruff && mypy");
    assert_eq!(sure.outcome, Outcome::Passed);
    assert_eq!(sure.failed, Some(0));
    assert_eq!(
        sure.evidence_line.as_deref(),
        Some("a later step in the same `&&` chain ran, so `ruff` exited cleanly")
    );
    assert_eq!(chain("ruff ; mypy").outcome, Outcome::Unknown);
    assert_eq!(chain("ruff || mypy").outcome, Outcome::Unknown);

    let mut blank = vec![unread("ruff"), unread("mypy")];
    blank[1].outcome = Outcome::Passed;
    infer_from_short_circuit(&mut blank, &vec![0, 1], &steps("ruff && mypy"), " \n");
    assert_eq!(blank[0].outcome, Outcome::Unknown);
}

#[test]
fn an_error_flag_settles_only_unread_runs() {
    let read = analyse(1, "pytest", "5 passed", false, true);
    assert_eq!(read[0].outcome, Outcome::Passed);
    let unread = analyse(1, "pytest", "", true, false);
    assert_eq!(unread[0].outcome, Outcome::DidNotComplete);
    assert_eq!(unread[0].evidence_line, None);
}

#[test]
fn a_build_that_ran_tsc_vouches_for_the_types() {
    let r = analyse(7, "npm run build", "> app@1 build\n> tsc -b && vite build\n✓ built in 1s", false, false);
    assert_eq!(r.len(), 2);
    assert_eq!(r[0].kind, CheckKind::TypeCheck);
    assert_eq!(r[0].runner, "tsc");
    assert_eq!(r[0].evidence_line.as_deref(), Some("the build ran `tsc` and completed"));
    assert_eq!(r[1].kind, CheckKind::Build);
    assert!(r.iter().all(|x| x.seq == 7));
}

#[test]
fn a_runner_that_collected_nothing_says_so() {
    let r = analyse(
        1,
        "pytest tests/",
        "collected 0 items\n\nno tests ran in 0.01s",
        false,
        false,
    );
    assert_eq!(r.len(), 1);
    assert_eq!(r[0].outcome, Outcome::Failed);
    assert_eq!(r[0].caveats, vec![Caveat::NoTestsRan]);

    let failing = analyse(1, "pytest", "2 failed in 0.01s", false, false);
    assert!(!failing[0].caveats.contains(&Caveat::NoTestsRan));
}

#[test]
fn only_the_named_scripts_are_checks() {
    assert_eq!(
        classify("npm run lint"),
        Some((CheckKind::Lint, "npm lint".to_string()))
    );
    assert_eq!(
        classify("npm run typecheck"),
        Some((CheckKind::TypeCheck, "npm typecheck".to_string()))
    );
    for none in ["yarn run lint", "yarn run lint-imports", "npm run type-check", "pnpm run typecheck"] {
        assert_eq!(classify(none), None, "{none}");
    }
}

#[test]
fn a_wrapper_never_changes_the_tool() {
    for s in [
        "pytest -q",
        "  pytest -q ",
        "uv run pytest",
        ".venv/bin/python -m pytest",
        "./x/uv run ruff",
        "timeout 30 cargo test",
        "yarn dlx jest",
        "sudo env nice tsc",
        "./gradlew test",
    ] {
        assert_eq!(strip_invocation(&format!("uv run {s}")), strip_invocation(s), "{s}");
    }
}

#[test]
fn a_build_keeps_its_own_words_in_a_shared_stream() {
    let shared = |kind: CheckKind, out: &str| {
        let r = generic_outcome(out, kind, false);
        (r.outcome, r.passed, r.failed, r.evidence)
    };
    let built = "✓ built in 566ms";
    assert_eq!(
        shared(CheckKind::Build, built),
        (Outcome::Passed, None, None, line(built))
    );
    assert_eq!(
        shared(CheckKind::Lint, built),
        (Outcome::Unknown, None, None, None)
    );
    assert_eq!(
        shared(CheckKind::Build, "0 errors"),
        (Outcome::Unknown, None, None, None)
    );
    assert_eq!(
        shared(CheckKind::Build, "Build succeeded.\n    0 errors"),
        (Outcome::Passed, None, None, line("Build succeeded."))
    );
}

#[test]
fn a_word_of_success_in_a_shared_stream_is_no_failure() {
    let r = generic_outcome(
        "test result: ok. 5 passed; 0 failed\n0 errors",
        CheckKind::TypeCheck,
        false,
    );
    assert_eq!(r.outcome, Outcome::Unknown);
    assert_eq!(r.evidence, None);
    let failing = generic_outcome("1 failed", CheckKind::TypeCheck, false);
    assert_eq!(failing.outcome, Outcome::Failed);

    let runs = analyse(
        1,
        "cargo test; pyright",
        "test result: ok. 5 passed; 0 failed\n0 errors",
        false,
        false,
    );
    assert_eq!(runs[0].outcome, Outcome::Passed);
    assert_eq!(runs[1].runner, "pyright");
    assert_eq!(runs[1].outcome, Outcome::Unknown);
}

#[test]
fn a_separator_joins_commands() {
    let mut both = steps("a && 'b;c' || d");
    both.extend(steps("e | f && g"));
    assert_eq!(steps("a && 'b;c' || d;e | f && g"), both);
    assert_eq!(steps("a && 'b;c' || d\ne | f && g"), both);
}

#[test]
fn older_workflow_rows_do_not_count() {
    let newest = "completed\tsuccess\tx";
    let read_rows = |out: &str| read("ci run", CheckKind::Test, out);
    assert_eq!(read_rows(newest), read_rows(&format!("{newest}\r\ncompleted\tfailure\ty\n")));
}
