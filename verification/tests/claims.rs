//! Extracting claims from prose.

use backcheck::claims::{extract, is_file_name, split_line, truncate, Claim, ClaimKind};
use backcheck::transcript::Transcript;

fn quoted(s: &str) -> String {
    serde_json::Value::String(s.to_string()).to_string()
}

fn claims_from(text: &str) -> Vec<Claim> {
    let line = format!(
        "{{\"type\":\"assistant\",\"message\":{{\"content\":[{{\"type\":\"text\",\"text\":{}}}]}}}}",
        quoted(text)
    );
    extract(&Transcript::parse_str(&line))
}

fn kinds(text: &str) -> Vec<ClaimKind> {
    claims_from(text).into_iter().map(|c| c.kind).collect()
}

#[test]
fn detects_test_claims() {
    assert!(kinds("All tests pass.").contains(&ClaimKind::TestsPass));
    assert!(kinds("The test suite is green.").contains(&ClaimKind::TestsPass));
    assert!(kinds("All 42 tests passing now.").contains(&ClaimKind::TestsPass));
}

#[test]
fn ignores_intentions_and_questions() {
    assert!(kinds("Let me run the tests to see if they pass.").is_empty());
    assert!(kinds("I'll make sure all tests pass.").is_empty());
    assert!(kinds("Do all tests pass?").is_empty());
    assert!(kinds("Once the tests pass, I will commit.").is_empty());
}

#[test]
fn recognises_all_checks_pass() {
    // Seen verbatim in two separate sessions and extracted from neither. They name no
    // particular tool, so they get their own kind and are checked against whatever ran.
    assert!(kinds("All checks pass.").contains(&ClaimKind::ChecksPass));
    assert!(
        kinds("All checks pass (369 tests, ruff, mypy, pre-commit).")
            .contains(&ClaimKind::ChecksPass)
    );
    assert!(kinds("Everything is green.").contains(&ClaimKind::ChecksPass));
    // Still not a claim when it is something the agent intends to do.
    assert!(kinds("I'll merge once all checks pass.").is_empty());
}

#[test]
fn green_needs_to_describe_the_tests() {
    // Regression: a conference award named "Test of Time" shown with a green banner was
    // read as a passing suite.
    assert!(kinds("Test of Time → green gradient banner, laid out as a highlight.").is_empty());
    assert!(kinds("The tests are green.").contains(&ClaimKind::TestsPass));
    assert!(kinds("All green.").contains(&ClaimKind::TestsPass));
}

#[test]
fn ignores_figurative_pushes() {
    // Regression: "pushed the last item over" was read as a git push.
    assert!(
        kinds("The accuracy edits added a few lines and pushed the last item over.").is_empty()
    );
    assert!(kinds("Pushed to origin.").contains(&ClaimKind::Pushed));
}

#[test]
fn ignores_descriptions_of_other_things() {
    // Regression: explaining a bug in run.sh was read as the agent claiming it pushed.
    assert!(kinds(
        "The leak channel was `run.sh`, which did `git add \"$OUTPUT\"` and pushed to `main` on every single run."
    )
    .is_empty());
    assert!(kinds("The old script used to push to main automatically.").is_empty());
    // A genuine first-person claim must still register.
    assert!(kinds("Pushed to origin.").contains(&ClaimKind::Pushed));
}

#[test]
fn ignores_negated_reports() {
    assert!(kinds("Two tests still fail.").is_empty());
    assert!(kinds("The tests do not pass yet.").is_empty());
}

#[test]
fn detects_commit_and_push() {
    assert!(kinds("I've committed the changes.").contains(&ClaimKind::Committed));
    assert!(kinds("Pushed to origin.").contains(&ClaimKind::Pushed));
}

#[test]
fn detects_lint_and_typecheck() {
    assert!(kinds("mypy is clean.").contains(&ClaimKind::TypeCheckPasses));
    assert!(kinds("Ruff passes with no warnings.").contains(&ClaimKind::LintPasses));
}

#[test]
fn detects_file_writes_with_subject() {
    let c = claims_from("Created src/parser.rs with the new logic.");
    let f = c.iter().find(|c| c.kind == ClaimKind::FileWritten).unwrap();
    assert_eq!(f.subject.as_deref(), Some("src/parser.rs"));
}

#[test]
fn skips_code_blocks() {
    assert!(kinds("```\nall tests pass\n```").is_empty());
    // Multi-line fences must stay closed across every line they span.
    assert!(kinds("```sh\n$ pytest\nall tests pass\nmore output\n```").is_empty());
}

#[test]
fn does_not_treat_urls_as_written_files() {
    // Regression: "github.com" used to be extracted as a file the agent claimed to write.
    let c = claims_from("PR created: https://github.com/acme/repo/pull/206");
    assert!(
        !c.iter().any(|c| c.kind == ClaimKind::FileWritten),
        "URL should not be a file claim: {c:?}"
    );
}

#[test]
fn keeps_file_paths_intact_across_sentence_splitting() {
    // Regression: splitting on every '.' cut paths like `src/parser.rs` in half.
    let c = claims_from("Created src/parser.rs with the new logic. It works.");
    let f = c.iter().find(|c| c.kind == ClaimKind::FileWritten).unwrap();
    assert_eq!(f.subject.as_deref(), Some("src/parser.rs"));
}

#[test]
fn positive_phrasings_with_negative_words_still_count() {
    // "no errors" describes success; it must not be read as a negated claim.
    assert!(kinds("Ruff passes with no warnings.").contains(&ClaimKind::LintPasses));
    assert!(kinds("mypy is clean with zero errors.").contains(&ClaimKind::TypeCheckPasses));
}

#[test]
fn deduplicates_repeated_claims() {
    let c = claims_from("All tests pass. Tests pass. All tests pass.");
    assert_eq!(
        c.iter().filter(|c| c.kind == ClaimKind::TestsPass).count(),
        1
    );
}

#[test]
fn claims_are_exact() {
    let c = claims_from("# Done\n\n- **All tests pass** and I've committed the change.\n- Wrote a.rs today.");
    let found: Vec<(ClaimKind, &str, Option<&str>, bool)> = c
        .iter()
        .map(|c| (c.kind, c.quote.as_str(), c.subject.as_deref(), c.in_summary))
        .collect();
    let both = "All tests pass and I've committed the change.";
    assert_eq!(
        found,
        vec![
            (ClaimKind::TestsPass, both, None, true),
            (ClaimKind::Committed, both, None, true),
            (ClaimKind::FileWritten, "Wrote a.rs today.", Some("a.rs"), true),
        ]
    );
}

#[test]
fn sentences_end_at_a_stop_before_white_space() {
    assert_eq!(
        split_line("See v1.2.3 now. Then stop! Ok. Last"),
        vec!["See v1.2.3 now.", " Then stop!", " Ok. Last"]
    );
    assert!(split_line("").is_empty());
}

#[test]
fn quotes_are_cut() {
    assert_eq!(truncate("  short ", 160), "short");
    assert_eq!(truncate("abc def", 4), "abc…");
    assert_eq!(truncate("éééé", 3), "ééé…");
    assert_eq!(truncate("éééé", 4), "éééé");
    let long = format!("All tests pass {}", "x".repeat(300));
    assert_eq!(claims_from(&long)[0].quote.chars().count(), 161);
}

#[test]
fn the_last_of_each_claim_is_kept_in_order() {
    let say = |text: &str| {
        format!(
            "{{\"type\":\"assistant\",\"message\":{{\"content\":[{{\"type\":\"text\",\"text\":{}}}]}}}}",
            quoted(text)
        )
    };
    let t = Transcript::parse_str(
        &[
            say("All tests pass. Pushed to origin."),
            say("Now all tests pass again."),
        ]
        .join("\n"),
    );
    let c = extract(&t);
    assert_eq!(c.len(), 2);
    assert_eq!(c[0].kind, ClaimKind::Pushed);
    assert!(!c[0].in_summary);
    assert_eq!(c[1].kind, ClaimKind::TestsPass);
    assert!(c[1].in_summary);
    assert_eq!(c[1].quote, "Now all tests pass again.");
    assert!(c[0].seq < c[1].seq);
}

#[test]
fn quoted_output_claims_nothing() {
    assert!(kinds("    all tests pass").is_empty());
    assert!(kinds("\tall tests pass").is_empty());
    assert!(kinds("~~~\nall tests pass\n~~~").is_empty());
    assert!(kinds("The output says `all tests pass` there.").is_empty());
}

#[test]
fn addresses_are_not_files() {
    assert!(is_file_name("src/a.rs", "Created src/a.rs"));
    assert!(is_file_name("docs/index.html", "Created docs/index.html"));
    assert!(!is_file_name("example.COM", "Created example.COM"));
    assert!(!is_file_name("e.g.x", "e.g.x"));
    assert!(!is_file_name(
        "a.b/c.html",
        "see https://x.y/a.b/c.html"
    ));
}

#[test]
fn kinds_have_labels() {
    let labels: Vec<&str> = [
        ClaimKind::TestsPass,
        ClaimKind::ChecksPass,
        ClaimKind::TypeCheckPasses,
        ClaimKind::LintPasses,
        ClaimKind::BuildPasses,
        ClaimKind::Committed,
        ClaimKind::Pushed,
        ClaimKind::FileWritten,
    ]
    .iter()
    .map(|k| k.label())
    .collect();
    assert_eq!(
        labels,
        vec![
            "tests pass",
            "checks pass",
            "type check passes",
            "lint passes",
            "build succeeds",
            "changes committed",
            "changes pushed",
            "file written"
        ]
    );
}
