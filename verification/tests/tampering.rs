//! Signs of a weakened suite.

use backcheck::evidence::Ledger;
use backcheck::tamper::{
    equality_assertions, looks_like_code, scan, snippet_around, trimmed_line_around, Finding, Severity,
};
use backcheck::transcript::Transcript;

fn quoted(s: &str) -> String {
    serde_json::Value::String(s.to_string()).to_string()
}

fn call(id: &str, name: &str, input: &[(&str, &str)]) -> String {
    let fields: Vec<String> = input
        .iter()
        .map(|(k, v)| format!("{}:{}", quoted(k), quoted(v)))
        .collect();
    format!(
        "{{\"type\":\"assistant\",\"cwd\":\"/repo\",\"message\":{{\"content\":[{{\"type\":\"tool_use\",\"id\":{},\"name\":{},\"input\":{{{}}}}}]}}}}",
        quoted(id),
        quoted(name),
        fields.join(",")
    )
}

fn bash(id: &str, cmd: &str) -> String {
    call(id, "Bash", &[("command", cmd)])
}

fn plain_result(id: &str, content: &str) -> String {
    format!(
        "{{\"type\":\"user\",\"message\":{{\"content\":[{{\"type\":\"tool_result\",\"tool_use_id\":{},\"content\":{}}}]}}}}",
        quoted(id),
        quoted(content)
    )
}

fn scan_edit(path: &str, old: &str, new: &str) -> Vec<Finding> {
    let raw = format!(
        "{}\n{}",
        call(
            "e1",
            "Edit",
            &[("file_path", path), ("old_string", old), ("new_string", new)],
        ),
        plain_result("e1", "ok")
    );
    let t = Transcript::parse_str(&raw);
    let l = Ledger::build(&t);
    scan(&t, &l)
}

#[test]
fn flags_added_skip_marker() {
    let f = scan_edit(
        "tests/test_auth.py",
        "def test_login():\n    assert login() == 200",
        "@pytest.mark.skip(reason=\"flaky\")\ndef test_login():\n    assert login() == 200",
    );
    assert!(f.iter().any(|f| f.kind == "test disabled"));
}

#[test]
fn flags_weakened_assertion() {
    let f = scan_edit(
        "src/auth.test.ts",
        "expect(result).toEqual({ok: true});",
        "expect(result).toBeTruthy();",
    );
    assert!(f.iter().any(|f| f.kind == "assertion weakened"));
}

#[test]
fn flags_removed_assertions() {
    let f = scan_edit(
        "tests/test_math.py",
        "def test_add():\n    assert add(1,2) == 3\n    assert add(0,0) == 0",
        "def test_add():\n    add(1,2)",
    );
    assert!(f.iter().any(|f| f.kind == "assertions removed"));
}

#[test]
fn reformatting_an_assertion_is_not_weakening_it() {
    // Regression: a formatter wrapping this assertion across lines moved the `==` off the
    // `assert` line, and the comparison looked like it had been removed.
    let f = scan_edit(
        "tests/integration/test_onboarding.py",
        "        assert any(log.action == \"user.create\" and log.actor_email == EMAIL for log in logs)",
        "        assert any(\n            log.action == \"user.create\" and log.actor_email == EMAIL\n            for log in logs\n        )",
    );
    assert!(f.is_empty(), "reformatting must not be flagged: {f:?}");
}

#[test]
fn a_renamed_test_is_not_a_deleted_one() {
    // Regression: replacing one test with a differently named one was reported as a
    // deletion, even though the file still covered the same ground.
    let f = scan_edit(
        "tests/test_extractors.py",
        "def test_extracts_matching_tool():\n    assert extract() is not None",
        "def test_tool_name_must_appear_in_content():\n    assert extract() is None",
    );
    assert!(
        !f.iter().any(|x| x.severity == Severity::Warning),
        "a one-for-one rename should not raise an alarm: {f:?}"
    );
}

#[test]
fn flags_deleted_test_case() {
    let f = scan_edit(
        "tests/test_api.py",
        "def test_get():\n    assert True\n\ndef test_post():\n    assert True",
        "def test_get():\n    assert True",
    );
    assert!(f.iter().any(|f| f.kind == "test removed"));
}

#[test]
fn flags_rust_ignore_attribute() {
    let f = scan_edit(
        "src/lib_test.rs",
        "#[test]\nfn test_parse() { assert_eq!(1, 1); }",
        "#[test]\n#[ignore]\nfn test_parse() { assert_eq!(1, 1); }",
    );
    assert!(f.iter().any(|f| f.kind == "test disabled"));
}

#[test]
fn ignores_edits_to_non_test_files() {
    let f = scan_edit(
        "src/main.rs",
        "let x = 1;",
        "// @pytest.mark.skip in a comment\nlet x = 2;",
    );
    assert!(f.is_empty());
}

#[test]
fn ignores_legitimate_test_additions() {
    let f = scan_edit(
        "tests/test_new.py",
        "def test_a():\n    assert f() == 1",
        "def test_a():\n    assert f() == 1\n\ndef test_b():\n    assert g() == 2",
    );
    assert!(f.is_empty(), "adding a test should not be flagged: {f:?}");
}

#[test]
fn flags_deleted_test_file() {
    let t = Transcript::parse_str(&bash("b1", "rm tests/test_broken.py"));
    let l = Ledger::build(&t);
    let f = scan(&t, &l);
    assert!(f.iter().any(|f| f.kind == "test file deleted"));
}

fn scan_lines(lines: &[String]) -> Vec<Finding> {
    let t = Transcript::parse_str(&lines.join("\n"));
    let l = Ledger::build(&t);
    scan(&t, &l)
}

fn say(text: &str) -> String {
    format!(
        "{{\"type\":\"assistant\",\"message\":{{\"content\":[{{\"type\":\"text\",\"text\":{}}}]}}}}",
        quoted(text)
    )
}

#[test]
fn findings_are_exact() {
    let f = scan_edit(
        "tests/test_a.py",
        "def test_a():\n    assert f() == 1\n    assert g()\ndef test_b():\n    assert h()",
        "@pytest.mark.skip\ndef test_a():\n    assert f()",
    );
    let found: Vec<(Severity, &str, &str, Option<&str>)> = f
        .iter()
        .map(|x| (x.severity, x.kind, x.detail.as_str(), x.snippet.as_deref()))
        .collect();
    assert_eq!(
        found,
        vec![
            (
                Severity::Warning,
                "test disabled",
                "1 skip/ignore marker added to a test file",
                Some("@pytest.mark.skip")
            ),
            (
                Severity::Warning,
                "test removed",
                "1 test case deleted: test_b",
                None
            ),
            (
                Severity::Notice,
                "assertions removed",
                "2 assertions removed (3 → 1)",
                None
            ),
        ]
    );
}

#[test]
fn losing_every_assertion_is_a_warning() {
    let f = scan_edit("tests/test_a.py", "assert f()", "f()");
    assert_eq!(f.len(), 1);
    assert_eq!(f[0].severity, Severity::Warning);
    assert_eq!(f[0].detail, "1 assertion removed (1 → 0)");
}

#[test]
fn a_comparison_reduced_to_a_truth_is_flagged() {
    let f = scan_edit("tests/test_a.py", "assert f() == 1", "assert f()");
    assert_eq!(f[0].kind, "assertion weakened");
    assert_eq!(
        f[0].detail,
        "an equality assertion was reduced to a truthiness check"
    );
    let g = scan_edit(
        "src/a.test.ts",
        "expect(x).toEqual(1)",
        "expect(x).toBeTruthy()",
    );
    assert_eq!(g[0].detail, "`toEqual` replaced by `toBeTruthy`");
}

#[test]
fn a_rename_is_noted() {
    let f = scan_edit(
        "tests/test_a.py",
        "def test_a():\n    pass",
        "def test_b():\n    pass",
    );
    assert_eq!(f.len(), 1);
    assert_eq!(f[0].severity, Severity::Notice);
    assert_eq!(f[0].kind, "test renamed");
    assert_eq!(
        f[0].detail,
        "test_a renamed or replaced, and the file still defines 1 test"
    );
}

#[test]
fn an_edit_that_changes_nothing_is_quiet() {
    let text = "@pytest.mark.skip\ndef test_a():\n    assert f() == 1";
    assert!(scan_edit("tests/test_a.py", text, text).is_empty());
}

#[test]
fn a_failed_edit_is_quiet() {
    let f = scan_lines(&[call(
        "1",
        "Edit",
        &[
            ("file_path", "tests/test_a.py"),
            ("old_string", "assert f()"),
            ("new_string", "f()"),
        ],
    )]);
    assert!(f.is_empty());
}

#[test]
fn data_is_not_quoted_as_code() {
    assert!(looks_like_code("  pytest.skip()"));
    assert!(!looks_like_code(" {\"a\": 1}"));
    assert!(!looks_like_code("[1]"));
    assert!(!looks_like_code("x \"type\": y"));
    assert_eq!(
        trimmed_line_around("one\n  tw", "o  \nthree"),
        "two"
    );
    assert_eq!(trimmed_line_around("", &"é".repeat(200)), "é".repeat(120));
    assert_eq!(snippet_around("{", "it.skip("), None);
}

#[test]
fn comparisons_are_counted_across_lines() {
    assert_eq!(equality_assertions("assert a == b\nassert c"), 1);
    assert_eq!(equality_assertions("assert c\nassert a != b"), 2);
    assert_eq!(equality_assertions("assert a\n  ==\n  b"), 1);
    assert_eq!(
        equality_assertions(&format!("assert {} == b", "x".repeat(300))),
        0
    );
    assert_eq!(equality_assertions(""), 0);
}

#[test]
fn a_dismissed_failure_is_noted_once() {
    let excuse = "These are pre-existing errors.";
    let f = scan_lines(&[
        bash("1", "pytest"),
        plain_result("1", "2 failed, 3 passed"),
        say(excuse),
        say("It is unrelated to my change."),
    ]);
    assert_eq!(f.len(), 1);
    assert_eq!(f[0].severity, Severity::Notice);
    assert_eq!(f[0].kind, "failure dismissed");
    assert_eq!(f[0].path, "");
    assert_eq!(
        f[0].detail,
        "a `pytest` run failed and was set aside as pre-existing rather than fixed"
    );
    assert_eq!(f[0].snippet.as_deref(), Some(excuse));

    assert!(scan_lines(&[say(excuse)]).is_empty());
    assert!(scan_lines(&[
        say(excuse),
        bash("1", "pytest"),
        plain_result("1", "2 failed, 3 passed"),
    ])
    .is_empty());
}

#[test]
fn removed_test_files_are_named() {
    let f = scan_lines(&[bash(
        "1",
        " rm -rf 'tests/test_a.py' && rm src/x.rs; rm \"a.test.ts\"",
    )]);
    assert_eq!(f.len(), 2);
    assert_eq!(f[0].path, "tests/test_a.py");
    assert_eq!(f[1].path, "a.test.ts");
    assert_eq!(f[0].kind, "test file deleted");
    assert_eq!(f[0].detail, "a test file was removed with `rm`");
    assert_eq!(
        f[0].snippet.as_deref(),
        Some("rm -rf 'tests/test_a.py' && rm src/x.rs; rm \"a.test.ts\"")
    );
}

#[test]
fn findings_are_ranked_and_told_once() {
    let weaken = |id: &str| {
        call(
            id,
            "Edit",
            &[
                ("file_path", "tests/test_a.py"),
                ("old_string", "assert f()\nassert g()"),
                ("new_string", "assert f()"),
            ],
        )
    };
    let f = scan_lines(&[
        weaken("1"),
        plain_result("1", "ok"),
        weaken("2"),
        plain_result("2", "ok"),
        bash("3", "rm tests/test_b.py"),
    ]);
    assert_eq!(f.len(), 2);
    assert_eq!(f[0].severity, Severity::Warning);
    assert_eq!(f[0].kind, "test file deleted");
    assert_eq!(f[1].severity, Severity::Notice);
    assert_eq!(f[1].detail, "1 assertion removed (2 → 1)");
}
