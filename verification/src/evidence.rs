//! The evidence ledger: what the transcript proves actually happened.
//!
//! Built purely from tool calls and their recorded results. Nothing here is inferred from what
//! the assistant *said* -- that is the whole point of the separation.

use vstd::prelude::*;

use crate::lists;
use crate::runners;
use crate::runners::classify;
use crate::runners::command;
use crate::runners::{CheckKind, CheckRun, CheckRunModel, Outcome};
use crate::text;
use crate::transcript;
use crate::transcript::{ToolCall, ToolCallModel, Transcript};

verus! {

/// A file the agent wrote to, and how.
#[derive(Debug)]
pub struct FileWrite {
    pub seq: usize,
    pub path: String,
    /// `Write` creates or replaces; `Edit` patches.
    pub tool: String,
    /// Text removed by an Edit, when recorded.
    pub old_string: Option<String>,
    /// Text inserted by an Edit, or full content for a Write.
    pub new_string: Option<String>,
    pub succeeded: bool,
}

/// What a [`FileWrite`] stands for.
#[verifier::ext_equal]
pub struct FileWriteModel {
    pub seq: usize,
    pub path: Seq<char>,
    pub tool: Seq<char>,
    pub old_string: Option<Seq<char>>,
    pub new_string: Option<Seq<char>>,
    pub succeeded: bool,
}

impl DeepView for FileWrite {
    type V = FileWriteModel;

    open spec fn deep_view(&self) -> FileWriteModel {
        FileWriteModel {
            seq: self.seq,
            path: self.path@,
            tool: self.tool@,
            old_string: self.old_string.deep_view(),
            new_string: self.new_string.deep_view(),
            succeeded: self.succeeded,
        }
    }
}

impl Clone for FileWrite {
    fn clone(&self) -> (r: Self)
        ensures
            r.deep_view() == self.deep_view(),
    {
        FileWrite {
            seq: self.seq,
            path: self.path.clone(),
            tool: self.tool.clone(),
            old_string: text::copied(&self.old_string),
            new_string: text::copied(&self.new_string),
            succeeded: self.succeeded,
        }
    }
}

impl FileWrite {
    pub fn is_test_file(&self) -> (r: bool)
        ensures
            r == looks_like_test(self.path@),
    {
        is_test_path(self.path.as_str())
    }
}

// ---------------------------------------------------------------- kinds of files

/// The file name at the end of a path.
pub open spec fn file_name(path: Seq<char>) -> Seq<char> {
    text::after_last(path, text::among("/\\"@))
}

/// The endings of files whose contents cannot change what a test run would do.
pub open spec fn doc_endings() -> Seq<Seq<char>> {
    seq![
        ".md"@,
        ".markdown"@,
        ".rst"@,
        ".txt"@,
        ".adoc"@,
        ".png"@,
        ".jpg"@,
        ".jpeg"@,
        ".gif"@,
        ".svg"@,
        ".pdf"@,
        ".ico"@,
        ".webp"@,
        ".csv"@,
    ]
}

/// The names of such files.
pub open spec fn doc_names() -> Seq<Seq<char>> {
    seq!["license"@, "licence"@, "notice"@, "authors"@, "codeowners"@, ".gitignore"@]
}

/// A file whose contents cannot change what a test run would do.
pub open spec fn is_doc(path: Seq<char>) -> bool {
    let name = file_name(text::lowered(path));
    lists::any_such(doc_endings(), |e: Seq<char>| text::ends(name, e)) || doc_names().contains(name)
}

/// Files whose contents cannot change what a test run would do.
///
/// Editing a README after a green suite does not make the suite stale, and saying it does is
/// exactly the false alarm that gets a hook uninstalled. Configuration and lockfiles are
/// deliberately absent from this list: those can and do change behaviour.
pub fn is_documentation(path: &str) -> (r: bool)
    ensures
        r == is_doc(path@),
{
    let p = text::lowercase(path);
    let name = text::after_last_of(p.as_str(), "/\\");
    let endings: [&str; 14] = [
        ".md",
        ".markdown",
        ".rst",
        ".txt",
        ".adoc",
        ".png",
        ".jpg",
        ".jpeg",
        ".gif",
        ".svg",
        ".pdf",
        ".ico",
        ".webp",
        ".csv",
    ];
    let names: [&str; 6] = [
        "license",
        "licence",
        "notice",
        "authors",
        "codeowners",
        ".gitignore",
    ];
    assert(endings.deep_view() =~= doc_endings());
    assert(names.deep_view() =~= doc_names());
    let ghost f = |e: Seq<char>| text::ends(name@, e);
    for i in 0..14usize
        invariant
            name@ == file_name(text::lowered(path@)),
            f == (|e: Seq<char>| text::ends(name@, e)),
            endings.deep_view() == doc_endings(),
            forall|k: int| 0 <= k < i ==> !f(#[trigger] doc_endings()[k]),
    {
        assert(endings.deep_view()[i as int] == endings@[i as int]@);
        if text::ends_with(name.as_str(), endings[i]) {
            assert(f(doc_endings()[i as int]));
            return true;
        }
    }
    for i in 0..6usize
        invariant
            name@ == file_name(text::lowered(path@)),
            f == (|e: Seq<char>| text::ends(name@, e)),
            forall|k: int| 0 <= k < 14 ==> !f(#[trigger] doc_endings()[k]),
            names.deep_view() == doc_names(),
            forall|k: int| 0 <= k < i ==> #[trigger] doc_names()[k] != name@,
    {
        assert(names.deep_view()[i as int] == names@[i as int]@);
        if text::same(name.as_str(), names[i]) {
            assert(doc_names()[i as int] == name@);
            return true;
        }
    }
    false
}

/// The path looks like that of a test file.
pub open spec fn looks_like_test(path: Seq<char>) -> bool {
    let p = text::lowered(path);
    let name = file_name(p);
    ||| text::begins(name, "test_"@)
    ||| text::ends(name, "_test.py"@)
    ||| text::ends(name, "_test.go"@)
    ||| text::ends(name, "_test.rs"@)
    ||| text::has(name, ".test."@)
    ||| text::has(name, ".spec."@)
    ||| text::ends(name, "_spec.rb"@)
    ||| text::has(p, "/tests/"@)
    ||| text::has(p, "/test/"@)
    ||| text::has(p, "/spec/"@)
    ||| text::begins(p, "tests/"@)
    ||| text::begins(p, "test/"@)
}

/// Heuristic: does this path look like a test file?
pub fn is_test_path(path: &str) -> (r: bool)
    ensures
        r == looks_like_test(path@),
{
    let lower = text::lowercase(path);
    let p = lower.as_str();
    let last = text::after_last_of(p, "/\\");
    let name = last.as_str();
    text::starts_with(name, "test_") || text::ends_with(name, "_test.py") || text::ends_with(
        name,
        "_test.go",
    ) || text::ends_with(name, "_test.rs") || text::contains(name, ".test.") || text::contains(
        name,
        ".spec.",
    ) || text::ends_with(name, "_spec.rb") || text::contains(p, "/tests/") || text::contains(
        p,
        "/test/",
    ) || text::contains(p, "/spec/") || text::starts_with(p, "tests/") || text::starts_with(
        p,
        "test/",
    )
}

// ---------------------------------------------------------------- git

/// A git operation the agent performed.
#[derive(Debug)]
pub struct GitOp {
    pub seq: usize,
    pub kind: GitOpKind,
    pub command: String,
    pub succeeded: bool,
    pub output_line: Option<String>,
}

#[derive(Debug, Clone, Copy, PartialEq, Eq, Structural)]
pub enum GitOpKind {
    Commit,
    Push,
}

impl DeepView for GitOpKind {
    type V = GitOpKind;

    open spec fn deep_view(&self) -> GitOpKind {
        *self
    }
}

/// What a [`GitOp`] stands for.
#[verifier::ext_equal]
pub struct GitOpModel {
    pub seq: usize,
    pub kind: GitOpKind,
    pub command: Seq<char>,
    pub succeeded: bool,
    pub output_line: Option<Seq<char>>,
}

impl DeepView for GitOp {
    type V = GitOpModel;

    open spec fn deep_view(&self) -> GitOpModel {
        GitOpModel {
            seq: self.seq,
            kind: self.kind,
            command: self.command@,
            succeeded: self.succeeded,
            output_line: self.output_line.deep_view(),
        }
    }
}

impl Clone for GitOp {
    fn clone(&self) -> (r: Self)
        ensures
            r.deep_view() == self.deep_view(),
    {
        GitOp {
            seq: self.seq,
            kind: self.kind,
            command: self.command.clone(),
            succeeded: self.succeeded,
            output_line: text::copied(&self.output_line),
        }
    }
}

/// The git operation that a command performs.
pub open spec fn git_kind(segment: Seq<char>) -> Option<GitOpKind> {
    let lower = text::lowered(segment);
    if text::begins(lower, "git commit"@) || text::has(lower, " git commit"@) {
        Some(GitOpKind::Commit)
    } else if text::begins(lower, "git push"@) || text::has(lower, " git push"@) {
        Some(GitOpKind::Push)
    } else {
        None
    }
}

/// Git reports a failure.
pub open spec fn git_failed(output: Seq<char>) -> bool {
    let lower = text::lowered(output);
    ||| text::has(lower, "nothing to commit"@)
    ||| text::has(lower, "no changes added to commit"@)
    ||| text::has(lower, "rejected"@)
    ||| text::has(lower, "failed to push"@)
    ||| text::has(lower, "error:"@)
    ||| text::has(lower, "fatal:"@)
}

/// The first line of an output that says anything.
pub open spec fn first_filled_line(output: Seq<char>) -> Option<Seq<char>> {
    match lists::first_such(
        text::lines_of(output),
        |l: Seq<char>| text::trimmed(l).len() > 0,
    ) {
        Some(l) => Some(text::trimmed(l)),
        None => None,
    }
}

/// The git operation of one segment of a call.
pub open spec fn git_op(seq: usize, segment: Seq<char>, output: Seq<char>, stopped: bool) -> Option<
    GitOpModel,
> {
    match git_kind(segment) {
        Some(kind) => Some(
            GitOpModel {
                seq,
                kind,
                command: segment,
                succeeded: !stopped && !git_failed(output),
                output_line: first_filled_line(output),
            },
        ),
        None => None,
    }
}

fn kind_of_git(segment: &str) -> (r: Option<GitOpKind>)
    ensures
        r == git_kind(segment@),
{
    let lowered = text::lowercase(segment);
    let lower = lowered.as_str();
    if text::starts_with(lower, "git commit") || text::contains(lower, " git commit") {
        Some(GitOpKind::Commit)
    } else if text::starts_with(lower, "git push") || text::contains(lower, " git push") {
        Some(GitOpKind::Push)
    } else {
        None
    }
}

fn reports_git_failure(output: &str) -> (r: bool)
    ensures
        r == git_failed(output@),
{
    let lowered = text::lowercase(output);
    let lower = lowered.as_str();
    text::contains(lower, "nothing to commit") || text::contains(
        lower,
        "no changes added to commit",
    ) || text::contains(lower, "rejected") || text::contains(lower, "failed to push")
        || text::contains(lower, "error:") || text::contains(lower, "fatal:")
}

fn first_line(output: &str) -> (r: Option<String>)
    ensures
        r.deep_view() == first_filled_line(output@),
{
    let lines = text::lines(output);
    let ghost all = text::lines_of(output@);
    let ghost p = |l: Seq<char>| text::trimmed(l).len() > 0;
    let mut i: usize = 0;
    assert(all.skip(0) =~= all);
    while i < lines.len()
        invariant
            i <= lines.len(),
            all == lines.deep_view(),
            all == text::lines_of(output@),
            p == (|l: Seq<char>| text::trimmed(l).len() > 0),
            lists::first_such(all, p) == lists::first_such(all.skip(i as int), p),
        decreases lines.len() - i,
    {
        assert(all.skip(i as int)[0] == lines@[i as int]@);
        assert(all.skip(i as int).skip(1) =~= all.skip(i + 1));
        if !text::is_blank(lines[i].as_str()) {
            return Some(text::trim(lines[i].as_str()));
        }
        i = i + 1;
    }
    None
}

// ---------------------------------------------------------------- the ledger

#[derive(Debug)]
pub struct Ledger {
    pub checks: Vec<CheckRun>,
    pub writes: Vec<FileWrite>,
    pub git_ops: Vec<GitOp>,
}

/// What a [`Ledger`] stands for.
#[verifier::ext_equal]
pub struct LedgerModel {
    pub checks: Seq<CheckRunModel>,
    pub writes: Seq<FileWriteModel>,
    pub git_ops: Seq<GitOpModel>,
}

impl DeepView for Ledger {
    type V = LedgerModel;

    open spec fn deep_view(&self) -> LedgerModel {
        LedgerModel {
            checks: self.checks.deep_view(),
            writes: self.writes.deep_view(),
            git_ops: self.git_ops.deep_view(),
        }
    }
}

impl Default for Ledger {
    fn default() -> (l: Self)
        ensures
            l.deep_view() == (LedgerModel {
                checks: Seq::empty(),
                writes: Seq::empty(),
                git_ops: Seq::empty(),
            }),
    {
        let l = Ledger { checks: Vec::new(), writes: Vec::new(), git_ops: Vec::new() };
        assert(l.checks.deep_view() =~= Seq::empty());
        assert(l.writes.deep_view() =~= Seq::empty());
        assert(l.git_ops.deep_view() =~= Seq::empty());
        l
    }
}

/// The command of a Bash call.
pub open spec fn bash_command(call: ToolCallModel) -> Option<Seq<char>> {
    if call.name == "Bash"@ {
        call.input.str_at("command"@)
    } else {
        None
    }
}

/// The call was interrupted, or ended in an error.
pub open spec fn was_stopped(call: ToolCallModel) -> bool {
    match call.result {
        Some(r) => r.interrupted || r.is_error,
        None => false,
    }
}

/// The check runs of a call.
pub open spec fn call_checks(call: ToolCallModel) -> Seq<CheckRunModel> {
    match bash_command(call) {
        Some(cmd) => runners::analysed(
            call.seq,
            cmd,
            transcript::call_output(call),
            was_stopped(call),
        ),
        None => Seq::empty(),
    }
}

/// The git operations of a call.
pub open spec fn call_git_ops(call: ToolCallModel) -> Seq<GitOpModel> {
    match bash_command(call) {
        Some(cmd) => lists::selected(
            command::segments_of(cmd),
            |s: Seq<char>|
                git_op(call.seq, s, transcript::call_output(call), was_stopped(call)),
        ),
        None => Seq::empty(),
    }
}

/// The tools that write to files.
pub open spec fn is_write_tool(name: Seq<char>) -> bool {
    name == "Edit"@ || name == "Write"@ || name == "NotebookEdit"@
}

/// The path that a call wrote to: as it was asked for, or else as it was reported.
pub open spec fn written_path(call: ToolCallModel) -> Seq<char> {
    match call.input.str_at("file_path"@) {
        Some(p) => p,
        None => match call.result {
            Some(r) => match r.structured {
                Some(s) => transcript::text_or_empty(s.str_at("filePath"@)),
                None => Seq::empty(),
            },
            None => Seq::empty(),
        },
    }
}

/// The write that a call performs.
pub open spec fn call_write(call: ToolCallModel) -> Option<FileWriteModel> {
    if is_write_tool(call.name) && written_path(call).len() > 0 {
        Some(
            FileWriteModel {
                seq: call.seq,
                path: written_path(call),
                tool: call.name,
                old_string: call.input.str_at("old_string"@),
                new_string: match call.input.str_at("new_string"@) {
                    Some(s) => Some(s),
                    None => call.input.str_at("content"@),
                },
                succeeded: match call.result {
                    Some(r) => !r.is_error,
                    None => false,
                },
            },
        )
    } else {
        None
    }
}

/// What the calls prove.
pub open spec fn ledger_of(calls: Seq<ToolCallModel>) -> LedgerModel {
    LedgerModel {
        checks: lists::gathered(calls, |c: ToolCallModel| call_checks(c)),
        writes: lists::selected(calls, |c: ToolCallModel| call_write(c)),
        git_ops: lists::gathered(calls, |c: ToolCallModel| call_git_ops(c)),
    }
}

fn git_ops_in(seq: usize, cmd: &str, output: &str, stopped: bool) -> (r: Vec<GitOp>)
    ensures
        r.deep_view() == lists::selected(
            command::segments_of(cmd@),
            |s: Seq<char>| git_op(seq, s, output@, stopped),
        ),
{
    let segments = command::split_segments(cmd);
    let ghost all = segments.deep_view();
    let ghost f = |s: Seq<char>| git_op(seq, s, output@, stopped);
    let mut out: Vec<GitOp> = Vec::new();
    assert(out.deep_view() =~= Seq::empty());
    for i in 0..segments.len()
        invariant
            all == segments.deep_view(),
            f == (|s: Seq<char>| git_op(seq, s, output@, stopped)),
            out.deep_view() == lists::selected(all.take(i as int), f),
    {
        let ghost before = out.deep_view();
        proof {
            lists::lemma_selected_step(all, f, i as int);
            assert(all[i as int] == segments@[i as int]@);
        }
        if let Some(kind) = kind_of_git(segments[i].as_str()) {
            // Git reports failures in its output; a blocked call never ran at all.
            let op = GitOp {
                seq,
                kind,
                command: segments[i].clone(),
                succeeded: !stopped && !reports_git_failure(output),
                output_line: first_line(output),
            };
            out.push(op);
            assert(out.deep_view() =~= before.push(op.deep_view()));
        }
    }
    assert(all.take(all.len() as int) =~= all);
    out
}

impl Ledger {
    fn ingest_bash(&mut self, call: &ToolCall)
        requires
            call.name@ == "Bash"@,
        ensures
            final(self).deep_view() == (LedgerModel {
                checks: old(self).deep_view().checks + call_checks(call.deep_view()),
                writes: old(self).deep_view().writes,
                git_ops: old(self).deep_view().git_ops + call_git_ops(call.deep_view()),
            }),
    {
        let ghost before = self.deep_view();
        match call.input_str("command") {
            None => {
                assert(before.checks + call_checks(call.deep_view()) =~= before.checks);
                assert(before.git_ops + call_git_ops(call.deep_view()) =~= before.git_ops);
            },
            Some(cmd) => {
                let (interrupted, is_error) = match &call.result {
                    Some(r) => (r.interrupted, r.is_error),
                    None => (false, false),
                };
                let output = call.output();
                let mut runs = runners::analyse(
                    call.seq,
                    cmd,
                    output.as_str(),
                    interrupted,
                    is_error,
                );
                let ghost new_runs = runs.deep_view();
                self.checks.append(&mut runs);
                assert(self.checks.deep_view() =~= before.checks + new_runs);
                let mut ops = git_ops_in(call.seq, cmd, output.as_str(), interrupted || is_error);
                let ghost new_ops = ops.deep_view();
                self.git_ops.append(&mut ops);
                assert(self.git_ops.deep_view() =~= before.git_ops + new_ops);
            },
        }
    }

    fn ingest_write(&mut self, call: &ToolCall)
        requires
            is_write_tool(call.name@),
        ensures
            final(self).deep_view() == (LedgerModel {
                writes: match call_write(call.deep_view()) {
                    Some(w) => old(self).deep_view().writes.push(w),
                    None => old(self).deep_view().writes,
                },
                ..old(self).deep_view()
            }),
    {
        let ghost before = self.deep_view();
        let reported = match &call.result {
            Some(r) => match &r.structured {
                Some(s) => s.str_at("filePath"),
                None => None,
            },
            None => None,
        };
        let path = match call.input_str("file_path") {
            Some(p) => p.to_owned(),
            None => match reported {
                Some(p) => p,
                None => String::new(),
            },
        };
        assert(path@ =~= written_path(call.deep_view()));
        if path.as_str().is_empty() {
            return ;
        }
        let succeeded = match &call.result {
            Some(r) => !r.is_error,
            None => false,
        };
        let new_string = match call.input_str("new_string") {
            Some(s) => Some(s.to_owned()),
            None => text::owned(call.input_str("content")),
        };
        let write = FileWrite {
            seq: call.seq,
            path,
            tool: call.name.clone(),
            old_string: text::owned(call.input_str("old_string")),
            new_string,
            succeeded,
        };
        self.writes.push(write);
        assert(self.writes.deep_view() =~= before.writes.push(write.deep_view()));
    }

    /// Collect what the calls of a session prove.
    pub fn build(transcript: &Transcript) -> (l: Self)
        ensures
            l.deep_view() == ledger_of(transcript.deep_view().tool_calls),
    {
        let mut ledger = Ledger::default();
        let ghost all = transcript.deep_view().tool_calls;
        let ghost fc = |c: ToolCallModel| call_checks(c);
        let ghost fw = |c: ToolCallModel| call_write(c);
        let ghost fg = |c: ToolCallModel| call_git_ops(c);
        for i in 0..transcript.tool_calls.len()
            invariant
                all == transcript.tool_calls.deep_view(),
                fc == (|c: ToolCallModel| call_checks(c)),
                fw == (|c: ToolCallModel| call_write(c)),
                fg == (|c: ToolCallModel| call_git_ops(c)),
                ledger.deep_view() == (LedgerModel {
                    checks: lists::gathered(all.take(i as int), fc),
                    writes: lists::selected(all.take(i as int), fw),
                    git_ops: lists::gathered(all.take(i as int), fg),
                }),
        {
            let call = &transcript.tool_calls[i];
            let ghost before = ledger.deep_view();
            proof {
                assert(all[i as int] == call.deep_view());
                lists::lemma_gathered_step(all, fc, i as int);
                lists::lemma_selected_step(all, fw, i as int);
                lists::lemma_gathered_step(all, fg, i as int);
                reveal_strlit("Bash");
                reveal_strlit("Edit");
                reveal_strlit("Write");
                reveal_strlit("NotebookEdit");
                assert("Bash"@[0] == 'B');
                assert("Edit"@[0] == 'E');
                assert("Write"@[0] == 'W');
                assert("NotebookEdit"@[0] == 'N');
            }
            let name = call.name.as_str();
            if text::same(name, "Bash") {
                ledger.ingest_bash(call);
            } else {
                assert(before.checks + call_checks(call.deep_view()) =~= before.checks);
                assert(before.git_ops + call_git_ops(call.deep_view()) =~= before.git_ops);
                if text::same(name, "Edit") || text::same(name, "Write") || text::same(
                    name,
                    "NotebookEdit",
                ) {
                    ledger.ingest_write(call);
                }
            }
        }
        assert(all.take(all.len() as int) =~= all);
        ledger
    }
}

// ---------------------------------------------------------------- questions to the ledger

/// The check is of the kind.
pub open spec fn of_kind(kind: CheckKind) -> spec_fn(CheckRunModel) -> bool {
    |c: CheckRunModel| c.kind == kind
}

/// A successful write to a file that is not a test.
pub open spec fn is_source_write(w: FileWriteModel) -> bool {
    w.succeeded && !looks_like_test(w.path)
}

impl Ledger {
    /// The last run of a given kind, whatever its outcome.
    pub fn last_check(&self, kind: CheckKind) -> (r: Option<&CheckRun>)
        ensures
            r.deep_view() == lists::last_such(self.deep_view().checks, of_kind(kind)),
            match r {
                Some(c) => exists|i: int|
                    0 <= i < self.checks@.len() && #[trigger] self.checks@[i] == *c && c.kind
                        == kind && (forall|j: int|
                        i < j < self.checks@.len() ==> (#[trigger] self.checks@[j]).kind != kind),
                None => forall|j: int|
                    0 <= j < self.checks@.len() ==> (#[trigger] self.checks@[j]).kind != kind,
            },
    {
        let ghost all = self.deep_view().checks;
        let ghost p = of_kind(kind);
        let mut i: usize = self.checks.len();
        assert(all.take(all.len() as int) =~= all);
        while i > 0
            invariant
                i <= self.checks.len(),
                all == self.checks.deep_view(),
                p == of_kind(kind),
                lists::last_such(all, p) == lists::last_such(all.take(i as int), p),
                forall|j: int|
                    i <= j < self.checks@.len() ==> (#[trigger] self.checks@[j]).kind != kind,
            decreases i,
        {
            assert(all.take(i as int).last() == self.checks@[i - 1].deep_view());
            assert(all.take(i as int).drop_last() =~= all.take(i - 1));
            if self.checks[i - 1].kind == kind {
                return Some(&self.checks[i - 1]);
            }
            i = i - 1;
        }
        None
    }

    /// All runs of a kind.
    pub fn checks_of(&self, kind: CheckKind) -> (r: Vec<&CheckRun>)
        ensures
            r.deep_view() == lists::selected(
                self.deep_view().checks,
                |c: CheckRunModel|
                    if c.kind == kind {
                        Some(c)
                    } else {
                        None
                    },
            ),
            forall|c: CheckRunModel|
                #![trigger r.deep_view().contains(c)]
                r.deep_view().contains(c) <==> self.deep_view().checks.contains(c) && c.kind == kind,
    {
        let ghost all = self.deep_view().checks;
        let ghost f = |c: CheckRunModel|
            if c.kind == kind {
                Some(c)
            } else {
                None
            };
        let mut out: Vec<&CheckRun> = Vec::new();
        assert(out.deep_view() =~= Seq::empty());
        for i in 0..self.checks.len()
            invariant
                all == self.checks.deep_view(),
                f == (|c: CheckRunModel|
                    if c.kind == kind {
                        Some(c)
                    } else {
                        None
                    }),
                out.deep_view() == lists::selected(all.take(i as int), f),
        {
            let ghost before = out.deep_view();
            proof {
                lists::lemma_selected_step(all, f, i as int);
                assert(all[i as int] == self.checks@[i as int].deep_view());
            }
            if self.checks[i].kind == kind {
                out.push(&self.checks[i]);
                assert(out.deep_view() =~= before.push(all[i as int]));
            }
        }
        assert(all.take(all.len() as int) =~= all);
        proof {
            lists::lemma_selected_such(all, f, |c: CheckRunModel| c.kind == kind);
        }
        out
    }

    /// The last successful write to a non-test source file.
    ///
    /// Used for staleness: a passing run that predates the newest edit proves nothing about the
    /// code as it now stands.
    pub fn last_source_write(&self) -> (r: Option<&FileWrite>)
        ensures
            r.deep_view() == lists::last_such(
                self.deep_view().writes,
                |w: FileWriteModel| is_source_write(w),
            ),
            match r {
                Some(w) => exists|i: int|
                    0 <= i < self.writes@.len() && #[trigger] self.writes@[i] == *w && w.succeeded
                        && !looks_like_test(w.path@) && (forall|j: int|
                        i < j < self.writes@.len() ==> !((#[trigger] self.writes@[j]).succeeded
                            && !looks_like_test(self.writes@[j].path@))),
                None => forall|j: int|
                    0 <= j < self.writes@.len() ==> !((#[trigger] self.writes@[j]).succeeded
                        && !looks_like_test(self.writes@[j].path@)),
            },
    {
        let ghost all = self.deep_view().writes;
        let ghost p = |w: FileWriteModel| is_source_write(w);
        let mut i: usize = self.writes.len();
        assert(all.take(all.len() as int) =~= all);
        while i > 0
            invariant
                i <= self.writes.len(),
                all == self.writes.deep_view(),
                p == (|w: FileWriteModel| is_source_write(w)),
                lists::last_such(all, p) == lists::last_such(all.take(i as int), p),
                forall|j: int|
                    i <= j < self.writes@.len() ==> !((#[trigger] self.writes@[j]).succeeded
                        && !looks_like_test(self.writes@[j].path@)),
            decreases i,
        {
            assert(all.take(i as int).last() == self.writes@[i - 1].deep_view());
            assert(all.take(i as int).drop_last() =~= all.take(i - 1));
            if self.writes[i - 1].succeeded && !self.writes[i - 1].is_test_file() {
                return Some(&self.writes[i - 1]);
            }
            i = i - 1;
        }
        None
    }

    /// Writes that landed after the given point in the transcript.
    pub fn writes_after(&self, seq: usize) -> (r: Vec<&FileWrite>)
        ensures
            r.deep_view() == lists::selected(
                self.deep_view().writes,
                |w: FileWriteModel|
                    if w.succeeded && w.seq > seq {
                        Some(w)
                    } else {
                        None
                    },
            ),
            forall|w: FileWriteModel|
                #![trigger r.deep_view().contains(w)]
                r.deep_view().contains(w) <==> self.deep_view().writes.contains(w) && w.succeeded
                    && w.seq > seq,
    {
        let ghost all = self.deep_view().writes;
        let ghost f = |w: FileWriteModel|
            if w.succeeded && w.seq > seq {
                Some(w)
            } else {
                None
            };
        let mut out: Vec<&FileWrite> = Vec::new();
        assert(out.deep_view() =~= Seq::empty());
        for i in 0..self.writes.len()
            invariant
                all == self.writes.deep_view(),
                f == (|w: FileWriteModel|
                    if w.succeeded && w.seq > seq {
                        Some(w)
                    } else {
                        None
                    }),
                out.deep_view() == lists::selected(all.take(i as int), f),
        {
            let ghost before = out.deep_view();
            proof {
                lists::lemma_selected_step(all, f, i as int);
                assert(all[i as int] == self.writes@[i as int].deep_view());
            }
            if self.writes[i].succeeded && self.writes[i].seq > seq {
                out.push(&self.writes[i]);
                assert(out.deep_view() =~= before.push(all[i as int]));
            }
        }
        assert(all.take(all.len() as int) =~= all);
        proof {
            lists::lemma_selected_such(all, f, |w: FileWriteModel| w.succeeded && w.seq > seq);
        }
        out
    }

    /// The last git operation of a kind, whether or not it succeeded.
    pub fn last_git_op(&self, kind: GitOpKind) -> (r: Option<&GitOp>)
        ensures
            r.deep_view() == lists::last_such(
                self.deep_view().git_ops,
                |g: GitOpModel| g.kind == kind,
            ),
            match r {
                Some(g) => exists|i: int|
                    0 <= i < self.git_ops@.len() && #[trigger] self.git_ops@[i] == *g && g.kind
                        == kind && (forall|j: int|
                        i < j < self.git_ops@.len() ==> (#[trigger] self.git_ops@[j]).kind != kind),
                None => forall|j: int|
                    0 <= j < self.git_ops@.len() ==> (#[trigger] self.git_ops@[j]).kind != kind,
            },
    {
        let ghost all = self.deep_view().git_ops;
        let ghost p = |g: GitOpModel| g.kind == kind;
        let mut i: usize = self.git_ops.len();
        assert(all.take(all.len() as int) =~= all);
        while i > 0
            invariant
                i <= self.git_ops.len(),
                all == self.git_ops.deep_view(),
                p == (|g: GitOpModel| g.kind == kind),
                lists::last_such(all, p) == lists::last_such(all.take(i as int), p),
                forall|j: int|
                    i <= j < self.git_ops@.len() ==> (#[trigger] self.git_ops@[j]).kind != kind,
            decreases i,
        {
            assert(all.take(i as int).last() == self.git_ops@[i - 1].deep_view());
            assert(all.take(i as int).drop_last() =~= all.take(i - 1));
            if self.git_ops[i - 1].kind == kind {
                return Some(&self.git_ops[i - 1]);
            }
            i = i - 1;
        }
        None
    }

    /// Did any check of this kind actually pass cleanly?
    pub fn has_clean_pass(&self, kind: CheckKind) -> (r: bool)
        ensures
            r == lists::any_such(
                self.deep_view().checks,
                |c: CheckRunModel| c.kind == kind && runners::clean_pass(c),
            ),
            r <==> exists|i: int|
                0 <= i < self.checks@.len() && (#[trigger] self.checks@[i]).kind == kind
                    && self.checks@[i].outcome == Outcome::Passed
                    && self.checks@[i].caveats@.len() == 0,
    {
        let ghost all = self.deep_view().checks;
        let ghost p = |c: CheckRunModel| c.kind == kind && runners::clean_pass(c);
        for i in 0..self.checks.len()
            invariant
                all == self.checks.deep_view(),
                p == (|c: CheckRunModel| c.kind == kind && runners::clean_pass(c)),
                forall|k: int| 0 <= k < i ==> !p(#[trigger] all[k]),
                forall|k: int|
                    0 <= k < i ==> !((#[trigger] self.checks@[k]).kind == kind
                        && self.checks@[k].outcome == Outcome::Passed
                        && self.checks@[k].caveats@.len() == 0),
        {
            assert(all[i as int] == self.checks@[i as int].deep_view());
            if self.checks[i].kind == kind && self.checks[i].is_clean_pass() {
                assert(p(all[i as int]));
                return true;
            }
        }
        false
    }

    /// Did any check of this kind end in failure?
    pub fn has_failure(&self, kind: CheckKind) -> (r: bool)
        ensures
            r == lists::any_such(
                self.deep_view().checks,
                |c: CheckRunModel| c.kind == kind && c.outcome == Outcome::Failed,
            ),
            r <==> exists|i: int|
                0 <= i < self.checks@.len() && (#[trigger] self.checks@[i]).kind == kind
                    && self.checks@[i].outcome == Outcome::Failed,
    {
        let ghost all = self.deep_view().checks;
        let ghost p = |c: CheckRunModel| c.kind == kind && c.outcome == Outcome::Failed;
        for i in 0..self.checks.len()
            invariant
                all == self.checks.deep_view(),
                p == (|c: CheckRunModel| c.kind == kind && c.outcome == Outcome::Failed),
                forall|k: int| 0 <= k < i ==> !p(#[trigger] all[k]),
                forall|k: int|
                    0 <= k < i ==> !((#[trigger] self.checks@[k]).kind == kind
                        && self.checks@[k].outcome == Outcome::Failed),
        {
            assert(all[i as int] == self.checks@[i as int].deep_view());
            if self.checks[i].kind == kind && self.checks[i].outcome == Outcome::Failed {
                assert(p(all[i as int]));
                return true;
            }
        }
        false
    }
}

// ---------------------------------------------------------------- what was not recognised

/// The steps of a call that are not recognised as checks.
pub open spec fn call_unrecognised(call: ToolCallModel) -> Seq<Seq<char>> {
    match bash_command(call) {
        Some(cmd) => lists::selected(
            command::segments_of(cmd),
            |s: Seq<char>|
                if classify::classified(s) is None {
                    Some(s)
                } else {
                    None
                },
        ),
        None => Seq::empty(),
    }
}

/// The steps of a session that are not recognised as checks, in order.
pub open spec fn unrecognised_in(calls: Seq<ToolCallModel>) -> Seq<Seq<char>> {
    lists::gathered(calls, |c: ToolCallModel| call_unrecognised(c))
}

fn unrecognised_steps(call: &ToolCall) -> (r: Vec<String>)
    ensures
        r.deep_view() == call_unrecognised(call.deep_view()),
{
    let mut out: Vec<String> = Vec::new();
    assert(out.deep_view() =~= Seq::empty());
    if !text::same(call.name.as_str(), "Bash") {
        return out;
    }
    if let Some(cmd) = call.input_str("command") {
        let segments = command::split_segments(cmd);
        let ghost all = segments.deep_view();
        let ghost f = |s: Seq<char>|
            if classify::classified(s) is None {
                Some(s)
            } else {
                None
            };
        for i in 0..segments.len()
            invariant
                all == segments.deep_view(),
                f == (|s: Seq<char>|
                    if classify::classified(s) is None {
                        Some(s)
                    } else {
                        None
                    }),
                out.deep_view() == lists::selected(all.take(i as int), f),
        {
            let ghost before = out.deep_view();
            proof {
                lists::lemma_selected_step(all, f, i as int);
                assert(all[i as int] == segments@[i as int]@);
            }
            if classify::classify(segments[i].as_str()).is_none() {
                out.push(segments[i].clone());
                assert(out.deep_view() =~= before.push(all[i as int]));
            }
        }
        assert(all.take(all.len() as int) =~= all);
    }
    out
}

/// The steps that ran in a session and are not recognised as checks, in order.
pub fn unrecognised(transcript: &Transcript) -> (r: Vec<String>)
    ensures
        r.deep_view() == unrecognised_in(transcript.deep_view().tool_calls),
{
    let ghost all = transcript.deep_view().tool_calls;
    let ghost f = |c: ToolCallModel| call_unrecognised(c);
    let mut out: Vec<String> = Vec::new();
    assert(out.deep_view() =~= Seq::empty());
    for i in 0..transcript.tool_calls.len()
        invariant
            all == transcript.tool_calls.deep_view(),
            f == (|c: ToolCallModel| call_unrecognised(c)),
            out.deep_view() == lists::gathered(all.take(i as int), f),
    {
        let ghost before = out.deep_view();
        proof {
            lists::lemma_gathered_step(all, f, i as int);
            assert(all[i as int] == transcript.tool_calls@[i as int].deep_view());
        }
        let mut found = unrecognised_steps(&transcript.tool_calls[i]);
        let ghost new = found.deep_view();
        out.append(&mut found);
        assert(out.deep_view() =~= before + new);
    }
    assert(all.take(all.len() as int) =~= all);
    out
}

// ---------------------------------------------------------------- laws

/// What selects from one list and the next selects from both.
proof fn lemma_gathered_concat<A, B>(s: Seq<A>, t: Seq<A>, f: spec_fn(A) -> Seq<B>)
    ensures
        lists::gathered(s + t, f) == lists::gathered(s, f) + lists::gathered(t, f),
    decreases t.len(),
{
    if t.len() == 0 {
        assert(s + t =~= s);
        assert(lists::gathered(s, f) + lists::gathered(t, f) =~= lists::gathered(s, f));
    } else {
        lemma_gathered_concat(s, t.drop_last(), f);
        assert((s + t).drop_last() =~= s + t.drop_last());
        assert(lists::gathered(s, f) + lists::gathered(t, f) =~= lists::gathered(s, f)
            + lists::gathered(t.drop_last(), f) + f(t.last()));
    }
}

/// The evidence of a session is that of its first part followed by that of the rest: no call takes
/// away or changes what another one proves.
pub proof fn law_evidence_only_grows(calls: Seq<ToolCallModel>, more: Seq<ToolCallModel>)
    ensures
        ledger_of(calls + more).checks == ledger_of(calls).checks + ledger_of(more).checks,
        ledger_of(calls + more).writes == ledger_of(calls).writes + ledger_of(more).writes,
        ledger_of(calls + more).git_ops == ledger_of(calls).git_ops + ledger_of(more).git_ops,
{
    lemma_gathered_concat(calls, more, |c: ToolCallModel| call_checks(c));
    lists::lemma_selected_concat(calls, more, |c: ToolCallModel| call_write(c));
    lemma_gathered_concat(calls, more, |c: ToolCallModel| call_git_ops(c));
}

/// The ledger of one call holds what that call proves.
proof fn lemma_one_call(c: ToolCallModel)
    ensures
        ledger_of(seq![c]).checks == call_checks(c),
        ledger_of(seq![c]).git_ops == call_git_ops(c),
        ledger_of(seq![c]).writes == (match call_write(c) {
            Some(w) => seq![w],
            None => Seq::empty(),
        }),
{
    let s = seq![c];
    assert(s.drop_last() =~= Seq::<ToolCallModel>::empty());
    assert(s.last() == c);
    assert(Seq::<CheckRunModel>::empty() + call_checks(c) =~= call_checks(c));
    assert(Seq::<GitOpModel>::empty() + call_git_ops(c) =~= call_git_ops(c));
    reveal_with_fuel(lists::gathered, 2);
    reveal_with_fuel(lists::selected, 2);
    if let Some(w) = call_write(c) {
        assert(Seq::<FileWriteModel>::empty().push(w) =~= seq![w]);
    }
}

/// No two of the tools that leave evidence have the same name.
proof fn lemma_tools_differ()
    ensures
        "Bash"@ != "Edit"@,
        "Bash"@ != "Write"@,
        "Bash"@ != "NotebookEdit"@,
{
    reveal_strlit("Bash");
    reveal_strlit("Edit");
    reveal_strlit("Write");
    reveal_strlit("NotebookEdit");
    assert("Bash"@[0] == 'B');
    assert("Edit"@[0] == 'E');
}

/// A shell call proves the checks that its command ran, read from its output, and writes no file.
/// The output of a call that was interrupted or refused is read as that of a stopped run.
pub proof fn law_a_shell_call_proves_its_checks(call: ToolCallModel, cmd: Seq<char>)
    requires
        call.name == "Bash"@,
        call.input.str_at("command"@) == Some(cmd),
    ensures
        ledger_of(seq![call]).writes.len() == 0,
        ledger_of(seq![call]).checks == runners::analysed(
            call.seq,
            cmd,
            transcript::call_output(call),
            match call.result {
                Some(r) => r.interrupted || r.is_error,
                None => false,
            },
        ),
{
    lemma_one_call(call);
    lemma_tools_differ();
}

/// A step of a command that commits or pushes is recorded under its kind, with the step as it was
/// given; no other step is.
pub proof fn law_commits_and_pushes_are_recorded(
    call: ToolCallModel,
    cmd: Seq<char>,
    segment: Seq<char>,
)
    requires
        call.name == "Bash"@,
        call.input.str_at("command"@) == Some(cmd),
        command::segments_of(cmd).contains(segment),
    ensures
        ({
            let lower = text::lowered(segment);
            let ops = ledger_of(seq![call]).git_ops;
            let commits = text::begins(lower, "git commit"@) || text::has(lower, " git commit"@);
            let pushes = text::begins(lower, "git push"@) || text::has(lower, " git push"@);
            &&& commits ==> exists|k: int|
                0 <= k < ops.len() && (#[trigger] ops[k]).kind == GitOpKind::Commit
                    && ops[k].command == segment && ops[k].seq == call.seq
            &&& pushes && !commits ==> exists|k: int|
                0 <= k < ops.len() && (#[trigger] ops[k]).kind == GitOpKind::Push
                    && ops[k].command == segment && ops[k].seq == call.seq
            &&& !commits && !pushes ==> forall|k: int|
                0 <= k < ops.len() ==> (#[trigger] ops[k]).command != segment
        }),
{
    lemma_one_call(call);
    let output = transcript::call_output(call);
    let f = |s: Seq<char>| git_op(call.seq, s, output, was_stopped(call));
    let segments = command::segments_of(cmd);
    let i = choose|i: int| 0 <= i < segments.len() && segments[i] == segment;
    let ops = ledger_of(seq![call]).git_ops;
    if f(segment) is Some {
        lists::lemma_selected_keeps(segments, f, i);
        let k = choose|k: int| 0 <= k < ops.len() && ops[k] == f(segment)->0;
        assert(ops[k].command == segment);
    } else {
        lists::lemma_selected_from(segments, f);
        assert forall|k: int| 0 <= k < ops.len() implies (#[trigger] ops[k]).command != segment by {
            let j = choose|j: int|
                0 <= j < segments.len() && f(#[trigger] segments[j]) == Some(ops[k]);
        }
    }
}

/// A git operation succeeded exactly where its call was neither interrupted nor refused and the
/// output holds none of the words with which git reports that nothing was done; its evidence is
/// the first line that is not blank.
pub proof fn law_a_git_failure_is_no_success(calls: Seq<ToolCallModel>, k: int)
    requires
        0 <= k < ledger_of(calls).git_ops.len(),
    ensures
        exists|i: int|
            0 <= i < calls.len() && (#[trigger] calls[i]).name == "Bash"@ && ({
                let op = ledger_of(calls).git_ops[k];
                let output = transcript::call_output(calls[i]);
                let lower = text::lowered(output);
                let lines = text::lines_of(output);
                &&& op.seq == calls[i].seq
                &&& op.succeeded <==> !(calls[i].result matches Some(r) && (r.interrupted
                    || r.is_error)) && !text::has(lower, "nothing to commit"@) && !text::has(
                    lower,
                    "no changes added to commit"@,
                ) && !text::has(lower, "rejected"@) && !text::has(lower, "failed to push"@)
                    && !text::has(lower, "error:"@) && !text::has(lower, "fatal:"@)
                &&& match op.output_line {
                    Some(e) => exists|n: int|
                        0 <= n < lines.len() && e == text::trimmed(#[trigger] lines[n]) && e.len()
                            > 0 && (forall|m: int|
                            0 <= m < n ==> text::trimmed(#[trigger] lines[m]).len() == 0),
                    None => forall|m: int|
                        0 <= m < lines.len() ==> text::trimmed(#[trigger] lines[m]).len() == 0,
                }
            }),
{
    let fg = |c: ToolCallModel| call_git_ops(c);
    lists::lemma_gathered_from(calls, fg);
    let op = ledger_of(calls).git_ops[k];
    let i = choose|i: int| 0 <= i < calls.len() && fg(#[trigger] calls[i]).contains(op);
    let call = calls[i];
    assert(call_git_ops(call).contains(op));
    let cmd = bash_command(call)->0;
    let output = transcript::call_output(call);
    let f = |s: Seq<char>| git_op(call.seq, s, output, was_stopped(call));
    let segments = command::segments_of(cmd);
    lists::lemma_selected_from(segments, f);
    let ops = call_git_ops(call);
    let n = choose|n: int| 0 <= n < ops.len() && ops[n] == op;
    let j = choose|j: int| 0 <= j < segments.len() && f(#[trigger] segments[j]) == Some(ops[n]);
    let lines = text::lines_of(output);
    let p = |l: Seq<char>| text::trimmed(l).len() > 0;
    lists::lemma_first_such(lines, p);
    match lists::first_such(lines, p) {
        Some(a) => {
            let x = choose|x: int|
                0 <= x < lines.len() && #[trigger] lines[x] == a && p(a) && (forall|m: int|
                    0 <= m < x ==> !p(#[trigger] lines[m]));
            assert(text::trimmed(lines[x]) == op.output_line->0);
            assert forall|m: int| 0 <= m < x implies text::trimmed(#[trigger] lines[m]).len()
                == 0 by {
                assert(!p(lines[m]));
            }
        },
        None => {
            assert forall|m: int| 0 <= m < lines.len() implies text::trimmed(
                #[trigger] lines[m],
            ).len() == 0 by {
                assert(!p(lines[m]));
            }
        },
    }
    assert(calls[i].name == "Bash"@);
}

/// A call that edits or writes a file is recorded with the path it was given, or where it was given
/// none the path that its result reports, and with the text put in and taken out. It succeeded
/// exactly where there is a result and that is no error. Without a path nothing is recorded.
pub proof fn law_writes_are_recorded(call: ToolCallModel)
    requires
        call.name == "Edit"@ || call.name == "Write"@ || call.name == "NotebookEdit"@,
    ensures
        ({
            let l = ledger_of(seq![call]);
            let given = call.input.str_at("file_path"@);
            let reported = match call.result {
                Some(r) => match r.structured {
                    Some(s) => s.str_at("filePath"@),
                    None => None,
                },
                None => None,
            };
            let named = given matches Some(p) && p.len() > 0 || given is None && (reported matches
                Some(p) && p.len() > 0);
            &&& l.checks.len() == 0
            &&& l.git_ops.len() == 0
            &&& !named ==> l.writes.len() == 0
            &&& named ==> l.writes.len() == 1 && ({
                let w = l.writes[0];
                &&& w.seq == call.seq
                &&& w.tool == call.name
                &&& Some(w.path) == (if given is Some {
                    given
                } else {
                    reported
                })
                &&& w.old_string == call.input.str_at("old_string"@)
                &&& call.input.str_at("new_string"@) is Some ==> w.new_string
                    == call.input.str_at("new_string"@)
                &&& call.input.str_at("new_string"@) is None ==> w.new_string
                    == call.input.str_at("content"@)
                &&& w.succeeded <==> (call.result matches Some(r) && !r.is_error)
            })
        }),
{
    lemma_one_call(call);
    lemma_tools_differ();
}

/// Calls of other tools prove nothing, and neither does a shell call without a command.
pub proof fn law_other_calls_prove_nothing(call: ToolCallModel)
    requires
        call.name != "Edit"@ && call.name != "Write"@ && call.name != "NotebookEdit"@,
        call.name != "Bash"@ || call.input.str_at("command"@) is None,
    ensures
        ledger_of(seq![call]).checks.len() == 0,
        ledger_of(seq![call]).writes.len() == 0,
        ledger_of(seq![call]).git_ops.len() == 0,
{
    lemma_one_call(call);
}

/// The name of a file is what stands behind the last separator of its path.
proof fn lemma_file_name(dir: Seq<char>, name: Seq<char>)
    requires
        dir.len() == 0 || dir.last() == '/' || dir.last() == '\\',
        !name.contains('/'),
        !name.contains('\\'),
    ensures
        file_name(dir + name) == name,
    decreases name.len(),
{
    reveal_strlit("/\\");
    let set = "/\\"@;
    let p = text::among(set);
    assert(set[0] == '/' && set[1] == '\\');
    if name.len() == 0 {
        assert(dir + name =~= dir);
        if dir.len() > 0 {
            if dir.last() == '/' {
                assert(set.contains(set[0]));
            } else {
                assert(set.contains(set[1]));
            }
            assert(p(dir.last()));
        }
        assert(file_name(dir + name) =~= name);
    } else {
        let front = name.drop_last();
        assert forall|c: char| front.contains(c) implies name.contains(c) by {
            let i = choose|i: int| 0 <= i < front.len() && front[i] == c;
            assert(name[i] == c);
        }
        lemma_file_name(dir, front);
        assert((dir + name).drop_last() =~= dir + front);
        assert(name.contains(name.last()));
        assert((dir + name).last() == name.last());
        assert(!p(name.last())) by {
            if set.contains(name.last()) {
                let i = choose|i: int| 0 <= i < set.len() && set[i] == name.last();
                assert(i == 0 || i == 1);
            }
        }
        assert(file_name(dir + name) =~= name);
    }
}

/// Which paths are those of tests, in whatever case: by the name of the file, or by a directory of
/// tests anywhere above it.
pub proof fn law_which_paths_are_tests(path: Seq<char>, dir: Seq<char>, name: Seq<char>)
    requires
        text::lowered(path) == dir + name,
        dir.len() == 0 || dir.last() == '/' || dir.last() == '\\',
        !name.contains('/'),
        !name.contains('\\'),
    ensures
        text::begins(name, "test_"@) ==> looks_like_test(path),
        text::ends(name, "_test.py"@) ==> looks_like_test(path),
        text::ends(name, "_test.go"@) ==> looks_like_test(path),
        text::ends(name, "_test.rs"@) ==> looks_like_test(path),
        text::ends(name, "_spec.rb"@) ==> looks_like_test(path),
        text::has(name, ".test."@) ==> looks_like_test(path),
        text::has(name, ".spec."@) ==> looks_like_test(path),
        text::has(dir, "/tests/"@) ==> looks_like_test(path),
        text::has(dir, "/test/"@) ==> looks_like_test(path),
        text::has(dir, "/spec/"@) ==> looks_like_test(path),
        text::begins(dir, "tests/"@) ==> looks_like_test(path),
        text::begins(dir, "test/"@) ==> looks_like_test(path),
        looks_like_test(path) ==> text::begins(name, "test_"@) || text::ends(name, "_test.py"@)
            || text::ends(name, "_test.go"@) || text::ends(name, "_test.rs"@) || text::ends(
            name,
            "_spec.rb"@,
        ) || text::has(name, ".test."@) || text::has(name, ".spec."@) || text::has(
            dir + name,
            "/tests/"@,
        ) || text::has(dir + name, "/test/"@) || text::has(dir + name, "/spec/"@) || text::begins(
            dir + name,
            "tests/"@,
        ) || text::begins(dir + name, "test/"@),
{
    lemma_file_name(dir, name);
    lemma_in_front(dir, name, "/tests/"@);
    lemma_in_front(dir, name, "/test/"@);
    lemma_in_front(dir, name, "/spec/"@);
    lemma_in_front(dir, name, "tests/"@);
    lemma_in_front(dir, name, "test/"@);
}

/// What stands in the front part of a text stands in the text.
proof fn lemma_in_front(a: Seq<char>, b: Seq<char>, p: Seq<char>)
    ensures
        text::has(a, p) ==> text::has(a + b, p),
        text::begins(a, p) ==> text::begins(a + b, p),
{
    assert forall|i: int| text::occurs_at(a, p, i) implies text::occurs_at(a + b, p, i) by {
        assert((a + b).subrange(i, i + p.len()) =~= a.subrange(i, i + p.len()));
    }
}

/// Which files are documentation, in whatever case: by the ending of the file's name, or by the
/// whole of it.
pub proof fn law_which_paths_are_documentation(path: Seq<char>, dir: Seq<char>, name: Seq<char>)
    requires
        text::lowered(path) == dir + name,
        dir.len() == 0 || dir.last() == '/' || dir.last() == '\\',
        !name.contains('/'),
        !name.contains('\\'),
    ensures
        is_doc(path) <==> text::ends(name, ".md"@) || text::ends(name, ".markdown"@) || text::ends(
            name,
            ".rst"@,
        ) || text::ends(name, ".txt"@) || text::ends(name, ".adoc"@) || text::ends(name, ".png"@)
            || text::ends(name, ".jpg"@) || text::ends(name, ".jpeg"@) || text::ends(name, ".gif"@)
            || text::ends(name, ".svg"@) || text::ends(name, ".pdf"@) || text::ends(name, ".ico"@)
            || text::ends(name, ".webp"@) || text::ends(name, ".csv"@) || name == "license"@ || name
            == "licence"@ || name == "notice"@ || name == "authors"@ || name == "codeowners"@
            || name == ".gitignore"@,
{
    lemma_file_name(dir, name);
    let es = doc_endings();
    let p = |e: Seq<char>| text::ends(name, e);
    assert(lists::any_such(es, p) <==> p(es[0]) || p(es[1]) || p(es[2]) || p(es[3]) || p(es[4])
        || p(es[5]) || p(es[6]) || p(es[7]) || p(es[8]) || p(es[9]) || p(es[10]) || p(es[11])
        || p(es[12]) || p(es[13]));
    let ns = doc_names();
    assert(ns.contains(name) <==> ns[0] == name || ns[1] == name || ns[2] == name || ns[3] == name
        || ns[4] == name || ns[5] == name);
}

/// The steps reported as not recognised are those of the shell commands that are not the steps of
/// a check, and no others.
pub proof fn law_what_is_not_recognised(calls: Seq<ToolCallModel>, step: Seq<char>)
    ensures
        unrecognised_in(calls).contains(step) <==> classify::classified(step) is None && exists|
            i: int,
        |
            0 <= i < calls.len() && (#[trigger] calls[i]).name == "Bash"@
                && calls[i].input.str_at("command"@) is Some && command::segments_of(
                calls[i].input.str_at("command"@)->0,
            ).contains(step),
{
    let g = |c: ToolCallModel| call_unrecognised(c);
    let f = |s: Seq<char>|
        if classify::classified(s) is None {
            Some(s)
        } else {
            None
        };
    lists::lemma_gathered_from(calls, g);
    let all = unrecognised_in(calls);
    if all.contains(step) {
        let j = choose|j: int| 0 <= j < all.len() && all[j] == step;
        let i = choose|i: int| 0 <= i < calls.len() && g(#[trigger] calls[i]).contains(all[j]);
        let cmd = bash_command(calls[i])->0;
        let segments = command::segments_of(cmd);
        let own = call_unrecognised(calls[i]);
        assert(own.contains(step));
        assert(own == lists::selected(segments, f));
        lists::lemma_selected_from(segments, f);
        let k = choose|k: int| 0 <= k < own.len() && own[k] == step;
        let m = choose|m: int| 0 <= m < segments.len() && f(#[trigger] segments[m]) == Some(own[k]);
        assert(segments[m] == step);
        assert(segments.contains(step));
        assert(calls[i].name == "Bash"@);
    }
    if classify::classified(step) is None && exists|i: int|
        0 <= i < calls.len() && (#[trigger] calls[i]).name == "Bash"@ && calls[i].input.str_at(
            "command"@,
        ) is Some && command::segments_of(calls[i].input.str_at("command"@)->0).contains(step) {
        let i = choose|i: int|
            0 <= i < calls.len() && (#[trigger] calls[i]).name == "Bash"@ && calls[i].input.str_at(
                "command"@,
            ) is Some && command::segments_of(calls[i].input.str_at("command"@)->0).contains(step);
        let segments = command::segments_of(bash_command(calls[i])->0);
        let k = choose|k: int| 0 <= k < segments.len() && segments[k] == step;
        lists::lemma_selected_keeps(segments, f, k);
        assert(call_unrecognised(calls[i]) == lists::selected(segments, f));
        assert(g(calls[i]).contains(step));
        lists::lemma_gathered_keeps(calls, g, i, step);
    }
}

} // verus!
