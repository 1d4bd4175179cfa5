//! Deciding what kind of check a command performs, and what qualifies its result.
//!
//! Adding a runner starts here: recognise the command, then teach [`super::outcome`] to read
//! what it prints.

use vstd::prelude::*;

use crate::lists;
use crate::pattern;
use crate::pattern::Pattern;
use crate::runners::command;
use crate::runners::{Caveat, CaveatModel, CheckKind};
use crate::text;

verus! {

/// A JavaScript package manager running its `test` script.
pub const JS_TEST: &'static str = r"(?i)\b(?:npm|yarn|pnpm|bun)\s+(?:run\s+)?test\b";

/// A count of tests that a name filter left out.
pub const FILTERED: &'static str = r"(\d+) filtered out";

/// A test file, or a test id within one, among the arguments.
pub const TEST_FILE: &'static str =
    r"(?i)\s([\w./\\-]*test[\w./\\-]*\.(py|rs|ts|tsx|js|jsx|go|rb|java)(::[\w:]+)?)";

/// How a command is told to be a certain check.
pub struct Rule {
    /// The first word has to equal `start`; otherwise the command has to begin with it.
    pub whole_word: bool,
    pub start: &'static str,
    /// What the command has to contain besides.
    pub also: &'static str,
    pub kind: CheckKind,
    pub name: &'static str,
}

/// What a [`Rule`] stands for.
#[verifier::ext_equal]
pub struct RuleModel {
    pub whole_word: bool,
    pub start: Seq<char>,
    pub also: Seq<char>,
    pub kind: CheckKind,
    pub name: Seq<char>,
}

impl DeepView for Rule {
    type V = RuleModel;

    open spec fn deep_view(&self) -> RuleModel {
        RuleModel {
            whole_word: self.whole_word,
            start: self.start@,
            also: self.also@,
            kind: self.kind,
            name: self.name@,
        }
    }
}

/// The tool named by the first word.
pub open spec fn tool(kind: CheckKind, name: Seq<char>) -> RuleModel {
    RuleModel { whole_word: true, start: name, also: Seq::empty(), kind, name }
}

/// A command that begins with `start`.
pub open spec fn prefix(kind: CheckKind, start: Seq<char>, name: Seq<char>) -> RuleModel {
    RuleModel { whole_word: false, start, also: Seq::empty(), kind, name }
}

/// A command that begins with `start` and mentions tests.
pub open spec fn goal(start: Seq<char>, name: Seq<char>) -> RuleModel {
    RuleModel { whole_word: false, start, also: "test"@, kind: CheckKind::Test, name }
}

/// The rules, in the order in which they are tried.
pub open spec fn rule_table() -> Seq<RuleModel> {
    seq![
        tool(CheckKind::Test, "pytest"@),
        tool(CheckKind::Test, "tox"@),
        tool(CheckKind::Test, "nox"@),
        tool(CheckKind::Test, "unittest"@),
        tool(CheckKind::Test, "jest"@),
        tool(CheckKind::Test, "vitest"@),
        tool(CheckKind::Test, "mocha"@),
        tool(CheckKind::Test, "ava"@),
        tool(CheckKind::Test, "rspec"@),
        tool(CheckKind::Test, "phpunit"@),
        tool(CheckKind::Test, "ctest"@),
        prefix(CheckKind::Test, "cargo test"@, "cargo test"@),
        prefix(CheckKind::Test, "cargo nextest"@, "cargo test"@),
        prefix(CheckKind::Test, "go test"@, "go test"@),
        prefix(CheckKind::Test, "dotnet test"@, "dotnet test"@),
        goal("mvn "@, "maven"@),
        goal("gradle "@, "gradle"@),
        goal("./gradlew "@, "gradle"@),
        prefix(CheckKind::Test, "bun test"@, "bun test"@),
        prefix(CheckKind::Test, "make test"@, "make test"@),
        prefix(CheckKind::Test, "make check"@, "make test"@),
        prefix(CheckKind::Test, "gh pr checks"@, "ci checks"@),
        prefix(CheckKind::Test, "gh run watch"@, "ci checks"@),
        prefix(CheckKind::Test, "gh run list"@, "ci run"@),
        prefix(CheckKind::Test, "gh run view"@, "ci run"@),
        tool(CheckKind::TypeCheck, "mypy"@),
        tool(CheckKind::TypeCheck, "pyright"@),
        tool(CheckKind::TypeCheck, "tsc"@),
        prefix(CheckKind::TypeCheck, "cargo check"@, "cargo check"@),
        prefix(CheckKind::TypeCheck, "npm run typecheck"@, "npm typecheck"@),
        tool(CheckKind::Lint, "ruff"@),
        tool(CheckKind::Lint, "eslint"@),
        tool(CheckKind::Lint, "flake8"@),
        tool(CheckKind::Lint, "pylint"@),
        tool(CheckKind::Lint, "golangci-lint"@),
        tool(CheckKind::Lint, "biome"@),
        tool(CheckKind::Lint, "shellcheck"@),
        prefix(CheckKind::Lint, "cargo clippy"@, "clippy"@),
        prefix(CheckKind::Lint, "cargo fmt"@, "format check"@),
        prefix(CheckKind::Lint, "gofmt"@, "format check"@),
        prefix(CheckKind::Lint, "pre-commit run"@, "pre-commit"@),
        prefix(CheckKind::Lint, "lint-imports"@, "import-linter"@),
        prefix(CheckKind::Lint, "import-linter"@, "import-linter"@),
        prefix(CheckKind::Lint, "npm run lint"@, "npm lint"@),
        prefix(CheckKind::Build, "cargo build"@, "cargo build"@),
        prefix(CheckKind::Build, "go build"@, "go build"@),
        prefix(CheckKind::Build, "npm run build"@, "npm build"@),
        prefix(CheckKind::Build, "run build"@, "npm build"@),
        prefix(CheckKind::Build, "mkdocs build"@, "mkdocs"@),
        prefix(CheckKind::Build, "build"@, "python build"@),
        prefix(CheckKind::Build, "hatch build"@, "python build"@),
        prefix(CheckKind::Build, "maturin build"@, "python build"@),
        prefix(CheckKind::Build, "docker build"@, "docker build"@),
        prefix(CheckKind::Build, "docker buildx build"@, "docker build"@),
        prefix(CheckKind::Build, "sphinx-build"@, "sphinx"@),
    ]
}

fn tool_rule(kind: CheckKind, name: &'static str) -> (r: Rule)
    ensures
        r.deep_view() == tool(kind, name@),
{
    let r = Rule { whole_word: true, start: name, also: "", kind, name };
    proof {
        reveal_strlit("");
        assert(""@ =~= Seq::empty());
    }
    r
}

fn prefix_rule(kind: CheckKind, start: &'static str, name: &'static str) -> (r: Rule)
    ensures
        r.deep_view() == prefix(kind, start@, name@),
{
    let r = Rule { whole_word: false, start, also: "", kind, name };
    proof {
        reveal_strlit("");
        assert(""@ =~= Seq::empty());
    }
    r
}

fn goal_rule(start: &'static str, name: &'static str) -> (r: Rule)
    ensures
        r.deep_view() == goal(start@, name@),
{
    Rule { whole_word: false, start, also: "test", kind: CheckKind::Test, name }
}

/// The rules, in the order in which they are tried.
fn rules() -> (r: Vec<Rule>)
    ensures
        r.deep_view() == rule_table(),
{
    let table: [Rule; 55] = [
        // Test runners.
        tool_rule(CheckKind::Test, "pytest"),
        tool_rule(CheckKind::Test, "tox"),
        tool_rule(CheckKind::Test, "nox"),
        tool_rule(CheckKind::Test, "unittest"),
        tool_rule(CheckKind::Test, "jest"),
        tool_rule(CheckKind::Test, "vitest"),
        tool_rule(CheckKind::Test, "mocha"),
        tool_rule(CheckKind::Test, "ava"),
        tool_rule(CheckKind::Test, "rspec"),
        tool_rule(CheckKind::Test, "phpunit"),
        tool_rule(CheckKind::Test, "ctest"),
        prefix_rule(CheckKind::Test, "cargo test", "cargo test"),
        prefix_rule(CheckKind::Test, "cargo nextest", "cargo test"),
        prefix_rule(CheckKind::Test, "go test", "go test"),
        prefix_rule(CheckKind::Test, "dotnet test", "dotnet test"),
        goal_rule("mvn ", "maven"),
        goal_rule("gradle ", "gradle"),
        goal_rule("./gradlew ", "gradle"),
        prefix_rule(CheckKind::Test, "bun test", "bun test"),
        prefix_rule(CheckKind::Test, "make test", "make test"),
        prefix_rule(CheckKind::Test, "make check", "make test"),
        // Continuous integration is where a lot of verification actually happens. An agent that
        // waits on `gh pr checks` and reads the result has evidence, even though nothing ran
        // locally.
        prefix_rule(CheckKind::Test, "gh pr checks", "ci checks"),
        prefix_rule(CheckKind::Test, "gh run watch", "ci checks"),
        // `gh run list` shows one row per workflow run, newest first, so only the first row is
        // about the work in hand. `gh run view` shows a single run. They are kept apart from
        // `gh pr checks`, where every row belongs to the same pull request.
        prefix_rule(CheckKind::Test, "gh run list", "ci run"),
        prefix_rule(CheckKind::Test, "gh run view", "ci run"),
        // Type checkers.
        tool_rule(CheckKind::TypeCheck, "mypy"),
        tool_rule(CheckKind::TypeCheck, "pyright"),
        tool_rule(CheckKind::TypeCheck, "tsc"),
        prefix_rule(CheckKind::TypeCheck, "cargo check", "cargo check"),
        prefix_rule(CheckKind::TypeCheck, "npm run typecheck", "npm typecheck"),
        // Linters.
        tool_rule(CheckKind::Lint, "ruff"),
        tool_rule(CheckKind::Lint, "eslint"),
        tool_rule(CheckKind::Lint, "flake8"),
        tool_rule(CheckKind::Lint, "pylint"),
        tool_rule(CheckKind::Lint, "golangci-lint"),
        tool_rule(CheckKind::Lint, "biome"),
        tool_rule(CheckKind::Lint, "shellcheck"),
        prefix_rule(CheckKind::Lint, "cargo clippy", "clippy"),
        prefix_rule(CheckKind::Lint, "cargo fmt", "format check"),
        prefix_rule(CheckKind::Lint, "gofmt", "format check"),
        // pre-commit fans out to the project's own linters, so its summary stands in for them.
        prefix_rule(CheckKind::Lint, "pre-commit run", "pre-commit"),
        prefix_rule(CheckKind::Lint, "lint-imports", "import-linter"),
        prefix_rule(CheckKind::Lint, "import-linter", "import-linter"),
        prefix_rule(CheckKind::Lint, "npm run lint", "npm lint"),
        // Builds.
        prefix_rule(CheckKind::Build, "cargo build", "cargo build"),
        prefix_rule(CheckKind::Build, "go build", "go build"),
        prefix_rule(CheckKind::Build, "npm run build", "npm build"),
        prefix_rule(CheckKind::Build, "run build", "npm build"),
        prefix_rule(CheckKind::Build, "mkdocs build", "mkdocs"),
        // `python -m build` arrives here with the interpreter already stripped.
        prefix_rule(CheckKind::Build, "build", "python build"),
        prefix_rule(CheckKind::Build, "hatch build", "python build"),
        prefix_rule(CheckKind::Build, "maturin build", "python build"),
        prefix_rule(CheckKind::Build, "docker build", "docker build"),
        prefix_rule(CheckKind::Build, "docker buildx build", "docker build"),
        prefix_rule(CheckKind::Build, "sphinx-build", "sphinx"),
    ];
    let mut out: Vec<Rule> = Vec::new();
    for i in 0..55usize
        invariant
            out@.len() == i,
            forall|k: int| 0 <= k < i ==> #[trigger] out@[k] == table@[k],
    {
        let r = &table[i];
        out.push(
            Rule {
                whole_word: r.whole_word,
                start: r.start,
                also: r.also,
                kind: r.kind,
                name: r.name,
            },
        );
    }
    assert(out.deep_view() =~= rule_table());
    out
}

/// The first word of a text.
pub open spec fn first_word(s: Seq<char>) -> Seq<char> {
    let ws = text::words_of(s);
    if ws.len() == 0 {
        Seq::empty()
    } else {
        ws[0]
    }
}

/// The rule takes the command, which is in lower case.
pub open spec fn rule_takes(rule: RuleModel, lower: Seq<char>) -> bool {
    if rule.whole_word {
        first_word(lower) == rule.start
    } else {
        text::begins(lower, rule.start) && text::has(lower, rule.also)
    }
}

/// The check that a bare command performs: what the first rule that takes it says.
pub open spec fn classified_bare(s: Seq<char>) -> Option<(CheckKind, Seq<char>)> {
    match lists::first_such(rule_table(), |r: RuleModel| rule_takes(r, text::lowered(s))) {
        Some(rule) => Some((rule.kind, rule.name)),
        None => None,
    }
}

/// The check that a command segment performs, wrappers and all.
pub open spec fn classified(segment: Seq<char>) -> Option<(CheckKind, Seq<char>)> {
    if pattern::regex_is_match(JS_TEST@, segment) {
        Some((CheckKind::Test, "npm test"@))
    } else {
        classified_bare(command::stripped(text::trimmed(segment)))
    }
}

/// Identify the check that a command without its wrappers performs, if any.
pub fn classify_bare(s: &str) -> (r: Option<(CheckKind, String)>)
    ensures
        r.deep_view() == classified_bare(s@),
{
    let lower = text::lowercase(s);
    let words = text::words(lower.as_str());
    let head = if words.len() == 0 {
        String::new()
    } else {
        words[0].clone()
    };
    assert(head@ =~= first_word(lower@));
    let table = rules();
    let ghost all = table.deep_view();
    let ghost p = |r: RuleModel| rule_takes(r, text::lowered(s@));
    let mut i: usize = 0;
    assert(all.skip(0) =~= all);
    while i < table.len()
        invariant
            i <= table.len(),
            lower@ == text::lowered(s@),
            head@ == first_word(lower@),
            all == table.deep_view(),
            all == rule_table(),
            p == (|r: RuleModel| rule_takes(r, text::lowered(s@))),
            lists::first_such(all, p) == lists::first_such(all.skip(i as int), p),
        decreases table.len() - i,
    {
        let rule = &table[i];
        assert(all.skip(i as int)[0] == rule.deep_view());
        assert(all.skip(i as int).skip(1) =~= all.skip(i + 1));
        let takes = if rule.whole_word {
            text::same(head.as_str(), rule.start)
        } else {
            text::starts_with(lower.as_str(), rule.start) && text::contains(
                lower.as_str(),
                rule.also,
            )
        };
        assert(takes == p(rule.deep_view()));
        if takes {
            return Some((rule.kind, rule.name.to_owned()));
        }
        i = i + 1;
    }
    None
}

/// Identify the check a command segment performs, if any.
pub fn classify(segment: &str) -> (r: Option<(CheckKind, String)>)
    ensures
        r.deep_view() == classified(segment@),
{
    // Matched on the original segment rather than a stripped one: after stripping, `yarn test`
    // and the shell builtin `test -f` are indistinguishable, and treating `test -f` as a test
    // run would hide a missing suite.
    let js_test = Pattern::new(JS_TEST);
    if js_test.is_match(segment) {
        return Some((CheckKind::Test, "npm test".to_owned()));
    }
    let bare = command::strip_invocation(segment);
    classify_bare(bare.as_str())
}

// ---------------------------------------------------------------- caveats

/// Shell constructs that would swallow a non-zero exit.
pub open spec fn suppressors() -> Seq<Seq<char>> {
    seq!["|| true"@, "|| echo"@, "|| :"@, "; true"@, "set +e"@, "|| exit 0"@, "; exit 0"@]
}

/// Flags that narrow a test run.
pub open spec fn narrowing_flags() -> Seq<Seq<char>> {
    seq![" -k "@, " --only"@, " -run "@, " --grep"@, " -t "@]
}

/// Flags that end a test run at its first failure.
pub open spec fn stopping_flags() -> Seq<Seq<char>> {
    seq![" -x"@, " --exitfirst"@, " --maxfail"@, " --bail"@, " -ff"@]
}

/// Pipes that can drop a runner's summary.
pub open spec fn filters() -> Seq<Seq<char>> {
    seq!["| head"@, "|head"@, "| grep"@, "|grep"@]
}

/// The first of the tokens that `lower` contains.
pub open spec fn token_in(tokens: Seq<Seq<char>>, lower: Seq<char>) -> Option<Seq<char>> {
    lists::first_such(tokens, |t: Seq<char>| text::has(lower, t))
}

/// What hides a failure of the command line.
pub open spec fn suppressions(full_command: Seq<char>) -> Seq<CaveatModel> {
    lists::selected(
        suppressors(),
        |t: Seq<char>|
            if text::has(text::lowered(full_command), t) {
                Some(CaveatModel::FailureSuppressed(t))
            } else {
                None
            },
    )
}

/// What the segment itself says that qualifies its run.
pub open spec fn flag_caveats(segment: Seq<char>, kind: CheckKind) -> Seq<CaveatModel> {
    let lower = text::lowered(segment);
    let subset = match token_in(narrowing_flags(), lower) {
        Some(t) if kind == CheckKind::Test => seq![CaveatModel::SubsetOnly(text::trimmed(t))],
        _ => Seq::empty(),
    };
    let early = match token_in(stopping_flags(), lower) {
        Some(t) if kind == CheckKind::Test => seq![CaveatModel::StopsEarly(text::trimmed(t))],
        _ => Seq::empty(),
    };
    let filtered = match token_in(filters(), lower) {
        Some(t) => seq![CaveatModel::OutputFiltered(text::trimmed(t))],
        _ => Seq::empty(),
    };
    subset + early + filtered
}

/// The first of the tokens that `lower` contains.
fn first_token<const N: usize>(tokens: &[&'static str; N], lower: &str) -> (r: Option<&'static str>)
    ensures
        r.deep_view() == token_in(tokens.deep_view(), lower@),
{
    let ghost all = tokens.deep_view();
    let ghost p = |t: Seq<char>| text::has(lower@, t);
    let mut i: usize = 0;
    assert(all.skip(0) =~= all);
    while i < N
        invariant
            i <= N,
            all.len() == N,
            all == tokens.deep_view(),
            p == (|t: Seq<char>| text::has(lower@, t)),
            lists::first_such(all, p) == lists::first_such(all.skip(i as int), p),
        decreases N - i,
    {
        assert(all.skip(i as int)[0] == tokens@[i as int]@);
        assert(all.skip(i as int).skip(1) =~= all.skip(i + 1));
        if text::contains(lower, tokens[i]) {
            return Some(tokens[i]);
        }
        i = i + 1;
    }
    None
}

/// Shell constructs anywhere in the command line that would swallow a non-zero exit.
///
/// These are checked against the whole command rather than a single segment: by the time the line
/// has been split, the `|| true` that neutralises a failing `pytest` is a segment of its own.
pub fn suppression_caveats(full_command: &str) -> (r: Vec<Caveat>)
    ensures
        r.deep_view() == suppressions(full_command@),
{
    let lower = text::lowercase(full_command);
    let tokens: [&'static str; 7] = [
        "|| true",
        "|| echo",
        "|| :",
        "; true",
        "set +e",
        "|| exit 0",
        "; exit 0",
    ];
    assert(tokens.deep_view() =~= suppressors());
    let ghost f = |t: Seq<char>|
        if text::has(text::lowered(full_command@), t) {
            Some(CaveatModel::FailureSuppressed(t))
        } else {
            None
        };
    let mut out: Vec<Caveat> = Vec::new();
    for i in 0..7usize
        invariant
            lower@ == text::lowered(full_command@),
            tokens.deep_view() == suppressors(),
            suppressors().len() == 7,
            f == (|t: Seq<char>|
                if text::has(text::lowered(full_command@), t) {
                    Some(CaveatModel::FailureSuppressed(t))
                } else {
                    None
                }),
            out.deep_view() == lists::selected(suppressors().take(i as int), f),
    {
        let ghost before = out.deep_view();
        proof {
            assert(tokens.deep_view()[i as int] == tokens@[i as int]@);
            lists::lemma_selected_step(suppressors(), f, i as int);
        }
        if text::contains(lower.as_str(), tokens[i]) {
            out.push(Caveat::FailureSuppressed(tokens[i].to_owned()));
            assert(out.deep_view() =~= before.push(
                CaveatModel::FailureSuppressed(suppressors()[i as int]),
            ));
        }
    }
    assert(suppressors().take(7) =~= suppressors());
    out
}

/// Flags and shell tricks that qualify a run.
pub fn caveats_for(segment: &str, kind: CheckKind) -> (r: Vec<Caveat>)
    ensures
        r.deep_view() == flag_caveats(segment@, kind),
{
    let lower = text::lowercase(segment);
    let mut out: Vec<Caveat> = Vec::new();
    if kind == CheckKind::Test {
        let narrowing: [&'static str; 5] = [" -k ", " --only", " -run ", " --grep", " -t "];
        assert(narrowing.deep_view() =~= narrowing_flags());
        if let Some(token) = first_token(&narrowing, lower.as_str()) {
            out.push(Caveat::SubsetOnly(text::trim(token)));
        }
        let stopping: [&'static str; 5] = [" -x", " --exitfirst", " --maxfail", " --bail", " -ff"];
        assert(stopping.deep_view() =~= stopping_flags());
        if let Some(token) = first_token(&stopping, lower.as_str()) {
            out.push(Caveat::StopsEarly(text::trim(token)));
        }
    }
    // `| tail` keeps the summary of most runners, but `head`/`grep` can drop it entirely.
    let filtering: [&'static str; 4] = ["| head", "|head", "| grep", "|grep"];
    assert(filtering.deep_view() =~= filters());
    if let Some(token) = first_token(&filtering, lower.as_str()) {
        out.push(Caveat::OutputFiltered(text::trim(token)));
    }
    assert(out.deep_view() =~= flag_caveats(segment@, kind));
    out
}

/// The caveat for a count of tests left out, as the first group of a match gives it.
pub open spec fn left_out(found: Option<Seq<Option<Seq<char>>>>) -> Option<CaveatModel> {
    match found {
        None => None,
        Some(groups) => match text::u32_of(pattern::group_of(groups, 1)) {
            Some(n) if n > 0 => Some(
                CaveatModel::SubsetOnly(text::decimal_of(n as nat) + " tests filtered out"@),
            ),
            _ => None,
        },
    }
}

/// The caveat for a count of tests left out, as the first group of a match gives it.
pub fn caveat_for_left_out(found: &Option<Vec<Option<String>>>) -> (r: Option<Caveat>)
    ensures
        r.deep_view() == left_out(found.deep_view()),
{
    match found {
        None => None,
        Some(groups) => {
            let count = pattern::group(groups, 1);
            match text::parse_u32(count.as_str()) {
                Some(n) if n > 0 => {
                    let mut s = text::decimal(n as u64);
                    s.append(" tests filtered out");
                    Some(Caveat::SubsetOnly(s))
                },
                _ => None,
            }
        },
    }
}

/// A subset the runner itself reported, read from its output rather than its arguments.
pub fn reported_subset(output: &str) -> (r: Option<Caveat>)
    ensures
        r.deep_view() == left_out(pattern::regex_captures(FILTERED@, output@)),
{
    let filtered = Pattern::new(FILTERED);
    caveat_for_left_out(&filtered.captures(output))
}

/// A directory for the runner to walk.
pub open spec fn names_directory(arg: Seq<char>) -> bool {
    let t = text::trimmed_of(arg, "\"'"@);
    !text::begins(arg, "-"@) && (text::ends(t, "/"@) || t == "."@ || t == "./"@)
}

/// Some argument of the command names a directory.
pub open spec fn walks_directory(segment: Seq<char>) -> bool {
    exists|i: int|
        1 <= i < text::words_of(segment).len() && names_directory(
            #[trigger] text::words_of(segment)[i],
        )
}

/// Does the command also hand the runner a whole directory to walk?
///
/// `pytest tests/test_orchestrator.py tests/` names one file and then the entire suite, so it
/// runs everything; treating it as a subset because a filename appears would be wrong.
pub fn covers_a_directory(segment: &str) -> (r: bool)
    ensures
        r == walks_directory(segment@),
{
    let words = text::words(segment);
    let ghost all = text::words_of(segment@);
    let mut i: usize = 1;
    while i < words.len()
        invariant
            1 <= i,
            all == text::words_of(segment@),
            words.deep_view() == all,
            forall|k: int| 1 <= k < i && k < all.len() ==> !names_directory(#[trigger] all[k]),
        decreases words.len() - i,
    {
        let arg = words[i].as_str();
        assert(all[i as int] == arg@);
        let t = text::trim_of(arg, "\"'");
        if !text::starts_with(arg, "-") && (text::ends_with(t.as_str(), "/") || text::same(
            t.as_str(),
            ".",
        ) || text::same(t.as_str(), "./")) {
            assert(names_directory(all[i as int]));
            return true;
        }
        i = i + 1;
    }
    false
}

/// The caveat for a test file among the arguments, as the first group of a match gives it.
pub open spec fn named_subset(
    segment: Seq<char>,
    found: Option<Seq<Option<Seq<char>>>>,
) -> Option<CaveatModel> {
    match found {
        Some(groups) if !walks_directory(segment) => Some(
            CaveatModel::SubsetOnly(pattern::group_of(groups, 1)),
        ),
        _ => None,
    }
}

/// The caveat for a test file among the arguments, as the first group of a match gives it.
pub fn caveat_for_file(segment: &str, found: &Option<Vec<Option<String>>>) -> (r: Option<Caveat>)
    ensures
        r.deep_view() == named_subset(segment@, found.deep_view()),
{
    if covers_a_directory(segment) {
        return None;
    }
    match found {
        Some(groups) => Some(Caveat::SubsetOnly(pattern::group(groups, 1))),
        None => None,
    }
}

/// Does the command name specific test files or test ids, rather than a whole suite?
pub fn targets_specific_tests(segment: &str) -> (r: Option<Caveat>)
    ensures
        r.deep_view() == named_subset(segment@, pattern::regex_captures(TEST_FILE@, segment@)),
{
    let test_file = Pattern::new(TEST_FILE);
    caveat_for_file(segment, &test_file.captures(segment))
}

// ---------------------------------------------------------------- laws

/// The rule goes for the command, in whatever case: by its first word, or by how it begins and
/// what else it holds.
pub open spec fn is_told_by(s: Seq<char>, rule: RuleModel) -> bool {
    let lower = text::lowered(s);
    if rule.whole_word {
        text::words_of(lower).len() > 0 && text::words_of(lower)[0] == rule.start
    } else {
        text::begins(lower, rule.start) && (rule.also.len() == 0 || text::has(lower, rule.also))
    }
}

/// Which command is which check. A command is told by its first word or by how it begins, in
/// whatever case; the first entry that takes it decides, and a command that none takes is no
/// check.
pub proof fn law_which_command_is_which_check(s: Seq<char>, table: Seq<RuleModel>)
    requires
        ({
            let word = |kind: CheckKind, name: Seq<char>|
                RuleModel { whole_word: true, start: name, also: Seq::empty(), kind, name };
            let start = |kind: CheckKind, start: Seq<char>, name: Seq<char>|
                RuleModel { whole_word: false, start, also: Seq::empty(), kind, name };
            let goal = |start: Seq<char>, name: Seq<char>|
                RuleModel {
                    whole_word: false,
                    start,
                    also: "test"@,
                    kind: CheckKind::Test,
                    name,
                };
            table == seq![
                word(CheckKind::Test, "pytest"@),
                word(CheckKind::Test, "tox"@),
                word(CheckKind::Test, "nox"@),
                word(CheckKind::Test, "unittest"@),
                word(CheckKind::Test, "jest"@),
                word(CheckKind::Test, "vitest"@),
                word(CheckKind::Test, "mocha"@),
                word(CheckKind::Test, "ava"@),
                word(CheckKind::Test, "rspec"@),
                word(CheckKind::Test, "phpunit"@),
                word(CheckKind::Test, "ctest"@),
                start(CheckKind::Test, "cargo test"@, "cargo test"@),
                start(CheckKind::Test, "cargo nextest"@, "cargo test"@),
                start(CheckKind::Test, "go test"@, "go test"@),
                start(CheckKind::Test, "dotnet test"@, "dotnet test"@),
                goal("mvn "@, "maven"@),
                goal("gradle "@, "gradle"@),
                goal("./gradlew "@, "gradle"@),
                start(CheckKind::Test, "bun test"@, "bun test"@),
                start(CheckKind::Test, "make test"@, "make test"@),
                start(CheckKind::Test, "make check"@, "make test"@),
                start(CheckKind::Test, "gh pr checks"@, "ci checks"@),
                start(CheckKind::Test, "gh run watch"@, "ci checks"@),
                start(CheckKind::Test, "gh run list"@, "ci run"@),
                start(CheckKind::Test, "gh run view"@, "ci run"@),
                word(CheckKind::TypeCheck, "mypy"@),
                word(CheckKind::TypeCheck, "pyright"@),
                word(CheckKind::TypeCheck, "tsc"@),
                start(CheckKind::TypeCheck, "cargo check"@, "cargo check"@),
                start(CheckKind::TypeCheck, "npm run typecheck"@, "npm typecheck"@),
                word(CheckKind::Lint, "ruff"@),
                word(CheckKind::Lint, "eslint"@),
                word(CheckKind::Lint, "flake8"@),
                word(CheckKind::Lint, "pylint"@),
                word(CheckKind::Lint, "golangci-lint"@),
                word(CheckKind::Lint, "biome"@),
                word(CheckKind::Lint, "shellcheck"@),
                start(CheckKind::Lint, "cargo clippy"@, "clippy"@),
                start(CheckKind::Lint, "cargo fmt"@, "format check"@),
                start(CheckKind::Lint, "gofmt"@, "format check"@),
                start(CheckKind::Lint, "pre-commit run"@, "pre-commit"@),
                start(CheckKind::Lint, "lint-imports"@, "import-linter"@),
                start(CheckKind::Lint, "import-linter"@, "import-linter"@),
                start(CheckKind::Lint, "npm run lint"@, "npm lint"@),
                start(CheckKind::Build, "cargo build"@, "cargo build"@),
                start(CheckKind::Build, "go build"@, "go build"@),
                start(CheckKind::Build, "npm run build"@, "npm build"@),
                start(CheckKind::Build, "run build"@, "npm build"@),
                start(CheckKind::Build, "mkdocs build"@, "mkdocs"@),
                start(CheckKind::Build, "build"@, "python build"@),
                start(CheckKind::Build, "hatch build"@, "python build"@),
                start(CheckKind::Build, "maturin build"@, "python build"@),
                start(CheckKind::Build, "docker build"@, "docker build"@),
                start(CheckKind::Build, "docker buildx build"@, "docker build"@),
                start(CheckKind::Build, "sphinx-build"@, "sphinx"@),
            ]
        }),
    ensures
        forall|k: int|
            0 <= k < table.len() && is_told_by(s, #[trigger] table[k]) && (forall|j: int|
                0 <= j < k ==> !is_told_by(s, #[trigger] table[j])) ==> classified_bare(s) == Some(
                (table[k].kind, table[k].name),
            ),
        (forall|k: int| 0 <= k < table.len() ==> !is_told_by(s, #[trigger] table[k]))
            ==> classified_bare(s) is None,
{
    assert(rule_table() =~= table);
    let lower = text::lowered(s);
    let p = |r: RuleModel| rule_takes(r, text::lowered(s));
    lemma_named_by_a_word();
    assert(text::occurs_at(lower, Seq::empty(), 0)) by {
        assert(lower.subrange(0, 0) =~= Seq::<char>::empty());
    }
    assert forall|k: int| 0 <= k < table.len() implies is_told_by(s, #[trigger] table[k]) == p(
        table[k],
    ) by {
        assert(table[k].whole_word ==> table[k].start.len() > 0);
        if table[k].also.len() == 0 {
            assert(table[k].also =~= Seq::empty());
        }
    }
    lists::lemma_first_such(table, p);
    match lists::first_such(table, p) {
        Some(r) => {
            let x = choose|x: int|
                0 <= x < table.len() && #[trigger] table[x] == r && p(r) && (forall|j: int|
                    0 <= j < x ==> !p(#[trigger] table[j]));
            assert(is_told_by(s, table[x]));
            assert forall|k: int|
                0 <= k < table.len() && is_told_by(s, #[trigger] table[k]) && (forall|j: int|
                    0 <= j < k ==> !is_told_by(s, #[trigger] table[j])) implies k == x by {
                if k < x {
                    assert(!p(table[k]));
                }
                if x < k {
                    assert(!is_told_by(s, table[x]));
                }
            }
        },
        None => {
            assert forall|k: int| 0 <= k < table.len() implies !is_told_by(
                s,
                #[trigger] table[k],
            ) by {
                assert(!p(table[k]));
            }
        },
    }
}

/// A rule that goes by the first word names one.
proof fn lemma_named_by_a_word()
    ensures
        forall|k: int|
            0 <= k < rule_table().len() ==> ((#[trigger] rule_table()[k]).whole_word
                ==> rule_table()[k].start.len() > 0),
{
    reveal_strlit("pytest");
    reveal_strlit("tox");
    reveal_strlit("nox");
    reveal_strlit("unittest");
    reveal_strlit("jest");
    reveal_strlit("vitest");
    reveal_strlit("mocha");
    reveal_strlit("ava");
    reveal_strlit("rspec");
    reveal_strlit("phpunit");
    reveal_strlit("ctest");
    reveal_strlit("mypy");
    reveal_strlit("pyright");
    reveal_strlit("tsc");
    reveal_strlit("ruff");
    reveal_strlit("eslint");
    reveal_strlit("flake8");
    reveal_strlit("pylint");
    reveal_strlit("golangci-lint");
    reveal_strlit("biome");
    reveal_strlit("shellcheck");
    let table = rule_table();
    assert forall|k: int| 0 <= k < table.len() && (#[trigger] table[k]).whole_word implies table[k].start.len()
        > 0 by {}
}

/// A step that runs the `test` script of a JavaScript package manager is a test run. Any other is
/// told by what is left of it without what only launches it.
pub proof fn law_a_step_is_told_by_its_tool(segment: Seq<char>)
    ensures
        pattern::regex_is_match(r"(?i)\b(?:npm|yarn|pnpm|bun)\s+(?:run\s+)?test\b"@, segment)
            ==> classified(segment) == Some((CheckKind::Test, "npm test"@)),
        !pattern::regex_is_match(r"(?i)\b(?:npm|yarn|pnpm|bun)\s+(?:run\s+)?test\b"@, segment)
            ==> classified(segment) == classified_bare(command::stripped(text::trimmed(segment))),
{
}

/// The flags of a step that qualify its run. A test run is a subset under any flag that narrows
/// it, and stops early under any that ends it at its first failure; neither is said of other
/// checks. Of every check a pipe that can drop the summary is noted. Of several flags of a sort
/// the first in the list is named.
pub proof fn law_which_flags_qualify_a_run(segment: Seq<char>, kind: CheckKind, w: Seq<char>)
    ensures
        ({
            let lower = text::lowered(segment);
            let found = flag_caveats(segment, kind);
            let narrowing = seq![" -k "@, " --only"@, " -run "@, " --grep"@, " -t "@];
            let stopping = seq![" -x"@, " --exitfirst"@, " --maxfail"@, " --bail"@, " -ff"@];
            let hiding = seq!["| head"@, "|head"@, "| grep"@, "|grep"@];
            let first = |flags: Seq<Seq<char>>, k: int|
                0 <= k < flags.len() && text::has(lower, flags[k]) && (forall|j: int|
                    0 <= j < k ==> !text::has(lower, #[trigger] flags[j]));
            &&& found.contains(CaveatModel::SubsetOnly(w)) <==> kind == CheckKind::Test && exists|
                k: int,
            | #[trigger]
                first(narrowing, k) && w == text::trimmed(narrowing[k])
            &&& found.contains(CaveatModel::StopsEarly(w)) <==> kind == CheckKind::Test && exists|
                k: int,
            | #[trigger]
                first(stopping, k) && w == text::trimmed(stopping[k])
            &&& found.contains(CaveatModel::OutputFiltered(w)) <==> exists|k: int| #[trigger]
                first(hiding, k) && w == text::trimmed(hiding[k])
            &&& !found.contains(CaveatModel::FailureSuppressed(w))
            &&& !found.contains(CaveatModel::NoTestsRan)
        }),
{
    let lower = text::lowered(segment);
    let found = flag_caveats(segment, kind);
    let narrowing = narrowing_flags();
    let stopping = stopping_flags();
    let hiding = filters();
    let first = |flags: Seq<Seq<char>>, k: int|
        0 <= k < flags.len() && text::has(lower, flags[k]) && (forall|j: int|
            0 <= j < k ==> !text::has(lower, #[trigger] flags[j]));
    lemma_first_token(narrowing, lower, first);
    lemma_first_token(stopping, lower, first);
    lemma_first_token(hiding, lower, first);
    let a: Seq<CaveatModel> = match token_in(narrowing, lower) {
        Some(t) if kind == CheckKind::Test => seq![CaveatModel::SubsetOnly(text::trimmed(t))],
        _ => Seq::empty(),
    };
    let b: Seq<CaveatModel> = match token_in(stopping, lower) {
        Some(t) if kind == CheckKind::Test => seq![CaveatModel::StopsEarly(text::trimmed(t))],
        _ => Seq::empty(),
    };
    let c: Seq<CaveatModel> = match token_in(hiding, lower) {
        Some(t) => seq![CaveatModel::OutputFiltered(text::trimmed(t))],
        _ => Seq::empty(),
    };
    assert(found == a + b + c);
    assert forall|x: CaveatModel| #[trigger] found.contains(x) <==> a.contains(x) || b.contains(x)
        || c.contains(x) by {
        if found.contains(x) {
            let i = choose|i: int| 0 <= i < found.len() && found[i] == x;
            if i < a.len() {
                assert(a[i] == x);
            } else if i < a.len() + b.len() {
                assert(b[i - a.len()] == x);
            } else {
                assert(c[i - a.len() - b.len()] == x);
            }
        }
        if a.contains(x) {
            let i = choose|i: int| 0 <= i < a.len() && a[i] == x;
            assert(found[i] == x);
        }
        if b.contains(x) {
            let i = choose|i: int| 0 <= i < b.len() && b[i] == x;
            assert(found[a.len() + i] == x);
        }
        if c.contains(x) {
            let i = choose|i: int| 0 <= i < c.len() && c[i] == x;
            assert(found[a.len() + b.len() + i] == x);
        }
    }
    assert(a.len() > 0 ==> a.contains(a[0]));
    assert(b.len() > 0 ==> b.contains(b[0]));
    assert(c.len() > 0 ==> c.contains(c[0]));
}

/// The token found is the first that the text holds.
proof fn lemma_first_token(
    tokens: Seq<Seq<char>>,
    lower: Seq<char>,
    first: spec_fn(Seq<Seq<char>>, int) -> bool,
)
    requires
        first == (|flags: Seq<Seq<char>>, k: int|
            0 <= k < flags.len() && text::has(lower, flags[k]) && (forall|j: int|
                0 <= j < k ==> !text::has(lower, #[trigger] flags[j]))),
    ensures
        match token_in(tokens, lower) {
            Some(t) => (exists|k: int| #[trigger] first(tokens, k)) && (forall|k: int| #[trigger]
                first(tokens, k) ==> tokens[k] == t),
            None => forall|k: int| !#[trigger] first(tokens, k),
        },
{
    let p = |t: Seq<char>| text::has(lower, t);
    lists::lemma_first_such(tokens, p);
    match token_in(tokens, lower) {
        Some(t) => {
            let x = choose|x: int|
                0 <= x < tokens.len() && #[trigger] tokens[x] == t && p(t) && (forall|j: int|
                    0 <= j < x ==> !p(#[trigger] tokens[j]));
            assert forall|j: int| 0 <= j < x implies !text::has(lower, #[trigger] tokens[j]) by {
                assert(!p(tokens[j]));
            }
            assert(first(tokens, x));
            assert forall|k: int| #[trigger] first(tokens, k) implies tokens[k] == t by {
                if k < x {
                    assert(!p(tokens[k]));
                }
                if x < k {
                    assert(!text::has(lower, tokens[x]));
                }
            }
        },
        None => {
            assert forall|k: int| !#[trigger] first(tokens, k) by {
                if 0 <= k < tokens.len() {
                    assert(!p(tokens[k]));
                }
            }
        },
    }
}

/// What a command line holds that would hide a failure, each of it, and nothing else.
pub proof fn law_what_hides_a_failure(full_command: Seq<char>, c: CaveatModel)
    ensures
        ({
            let tokens = seq![
                "|| true"@,
                "|| echo"@,
                "|| :"@,
                "; true"@,
                "set +e"@,
                "|| exit 0"@,
                "; exit 0"@,
            ];
            suppressions(full_command).contains(c) <==> exists|k: int|
                0 <= k < tokens.len() && text::has(
                    text::lowered(full_command),
                    #[trigger] tokens[k],
                ) && c == CaveatModel::FailureSuppressed(tokens[k])
        }),
{
    let tokens = seq![
        "|| true"@,
        "|| echo"@,
        "|| :"@,
        "; true"@,
        "set +e"@,
        "|| exit 0"@,
        "; exit 0"@,
    ];
    assert(suppressors() =~= tokens);
    let f = |t: Seq<char>|
        if text::has(text::lowered(full_command), t) {
            Some(CaveatModel::FailureSuppressed(t))
        } else {
            None
        };
    let found = suppressions(full_command);
    lists::lemma_selected_from(tokens, f);
    if found.contains(c) {
        let j = choose|j: int| 0 <= j < found.len() && found[j] == c;
        let k = choose|k: int| 0 <= k < tokens.len() && f(#[trigger] tokens[k]) == Some(found[j]);
        assert(text::has(text::lowered(full_command), tokens[k]));
    }
    assert forall|k: int|
        0 <= k < 7 && text::has(text::lowered(full_command), #[trigger] tokens[k]) && c
            == CaveatModel::FailureSuppressed(tokens[k]) implies found.contains(c) by {
        lists::lemma_selected_keeps(tokens, f, k);
    }
}

/// A run of which the runner says that tests were filtered out is a subset, and the caveat says
/// how many; none left out is no subset.
pub proof fn law_tests_left_out_make_a_subset(output: Seq<char>)
    ensures
        ({
            let found = pattern::regex_captures(r"(\d+) filtered out"@, output);
            let caveat = left_out(pattern::regex_captures(FILTERED@, output));
            &&& found is None ==> caveat is None
            &&& found matches Some(groups) ==> match text::u32_of(pattern::group_of(groups, 1)) {
                Some(n) => if n == 0 {
                    caveat is None
                } else {
                    caveat == Some(
                        CaveatModel::SubsetOnly(
                            text::decimal_of(n as nat) + " tests filtered out"@,
                        ),
                    )
                },
                None => caveat is None,
            }
        }),
{
}

/// A run that names a test file is a subset, and the caveat names it: unless some argument behind
/// the tool is a directory for it to walk, quoted or not.
pub proof fn law_a_named_test_file_makes_a_subset(segment: Seq<char>)
    ensures
        ({
            let words = text::words_of(segment);
            let found = pattern::regex_captures(
                r"(?i)\s([\w./\\-]*test[\w./\\-]*\.(py|rs|ts|tsx|js|jsx|go|rb|java)(::[\w:]+)?)"@,
                segment,
            );
            let walks = exists|i: int|
                1 <= i < words.len() && !text::begins(#[trigger] words[i], "-"@) && (text::ends(
                    text::trimmed_of(words[i], "\"'"@),
                    "/"@,
                ) || text::trimmed_of(words[i], "\"'"@) == "."@ || text::trimmed_of(
                    words[i],
                    "\"'"@,
                ) == "./"@);
            named_subset(segment, pattern::regex_captures(TEST_FILE@, segment)) == (match found {
                Some(groups) => if walks {
                    None
                } else {
                    Some(CaveatModel::SubsetOnly(pattern::group_of(groups, 1)))
                },
                None => None,
            })
        }),
{
    let words = text::words_of(segment);
    if walks_directory(segment) {
        let i = choose|i: int| 1 <= i < words.len() && names_directory(#[trigger] words[i]);
        assert(!text::begins(words[i], "-"@));
    } else {
        assert forall|i: int| 1 <= i < words.len() implies !names_directory(#[trigger] words[i]) by {}
    }
}

} // verus!
