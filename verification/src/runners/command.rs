//! Turning a raw shell command into the pieces that can be reasoned about.
//!
//! Three jobs live here: splitting a chained command into its steps, stripping the wrappers a
//! runner arrives behind, and working out which part of the combined output each step produced.

use vstd::prelude::*;

use crate::lists;
use crate::pattern;
use crate::pattern::Pattern;
use crate::text;

verus! {

/// How one command in a chain is joined to the next.
#[derive(Debug, Clone, Copy, PartialEq, Eq, Structural)]
pub enum Join {
    /// `&&`: the next command runs only if this one exited zero.
    AndThen,
    /// `||`: the next command runs only if this one failed.
    OrElse,
    /// `;` or a newline: the next command runs regardless.
    Then,
}

impl DeepView for Join {
    type V = Join;

    open spec fn deep_view(&self) -> Join {
        *self
    }
}

// ---------------------------------------------------------------- splitting a chain

/// Whether position `i` is inside single quotes after reading it, given the state before.
pub open spec fn toggled_single(c: char, single: bool, double: bool) -> bool {
    if c == '\'' && !double {
        !single
    } else {
        single
    }
}

/// Whether position `i` is inside double quotes after reading it, given the state before.
pub open spec fn toggled_double(c: char, single: bool, double: bool) -> bool {
    if c == '"' && !single {
        !double
    } else {
        double
    }
}

/// `&&` or `||` stands at position `i`.
pub open spec fn doubled_at(s: Seq<char>, i: int) -> bool {
    &&& 0 <= i && i + 1 < s.len()
    &&& s[i] == '&' || s[i] == '|'
    &&& s[i + 1] == s[i]
}

/// The pieces between the unquoted operators from position `i` on, each with the operator that
/// follows it. `cur` is the piece read so far, `single` and `double` say which quotes are open.
pub open spec fn pieces_from(
    s: Seq<char>,
    i: int,
    cur: Seq<char>,
    single: bool,
    double: bool,
) -> Seq<(Seq<char>, Join)>
    decreases s.len() - i,
{
    if i < 0 || i >= s.len() {
        seq![(cur, Join::Then)]
    } else {
        let c = s[i];
        let s2 = toggled_single(c, single, double);
        let d2 = toggled_double(c, single, double);
        if !s2 && !d2 && doubled_at(s, i) {
            let join = if c == '&' {
                Join::AndThen
            } else {
                Join::OrElse
            };
            seq![(cur, join)] + pieces_from(s, i + 2, Seq::empty(), s2, d2)
        } else if !s2 && !d2 && (c == ';' || c == '\n') {
            seq![(cur, Join::Then)] + pieces_from(s, i + 1, Seq::empty(), s2, d2)
        } else {
            pieces_from(s, i + 1, cur.push(c), s2, d2)
        }
    }
}

/// A piece as a step: trimmed, and none where nothing is left.
pub open spec fn step_of(piece: (Seq<char>, Join)) -> Option<(Seq<char>, Join)> {
    if text::trimmed(piece.0).len() == 0 {
        None
    } else {
        Some((text::trimmed(piece.0), piece.1))
    }
}

/// The steps of a chained command, each with the operator that follows it.
pub open spec fn steps_of(command: Seq<char>) -> Seq<(Seq<char>, Join)> {
    lists::selected(
        pieces_from(command, 0, Seq::empty(), false, false),
        |p: (Seq<char>, Join)| step_of(p),
    )
}

/// The steps of a chained command, without the operators.
pub open spec fn segments_of(command: Seq<char>) -> Seq<Seq<char>> {
    steps_of(command).map_values(|p: (Seq<char>, Join)| p.0)
}

fn split_pieces(command: &str) -> (r: Vec<(String, Join)>)
    ensures
        r.deep_view() == pieces_from(command@, 0, Seq::empty(), false, false),
{
    let cs = text::chars_of(command);
    let mut out: Vec<(String, Join)> = Vec::new();
    let mut cur = String::new();
    let mut single = false;
    let mut double = false;
    let mut i: usize = 0;
    let ghost all = pieces_from(command@, 0, Seq::empty(), false, false);
    assert(out.deep_view() + all =~= all);
    while i < cs.len()
        invariant
            cs@ == command@,
            i <= cs.len(),
            out.deep_view() + pieces_from(command@, i as int, cur@, single, double) == all,
        decreases cs.len() - i,
    {
        let c = cs[i];
        let ghost before = out.deep_view();
        let ghost rest = pieces_from(command@, i as int, cur@, single, double);
        if c == '\'' && !double {
            single = !single;
        } else if c == '"' && !single {
            double = !double;
        }
        if !single && !double {
            if (c == '&' || c == '|') && i + 1 < cs.len() && cs[i + 1] == c {
                let join = if c == '&' {
                    Join::AndThen
                } else {
                    Join::OrElse
                };
                out.push((cur, join));
                cur = String::new();
                i = i + 2;
                assert(cur@ =~= Seq::empty());
                assert(before + rest =~= out.deep_view() + pieces_from(
                    command@,
                    i as int,
                    cur@,
                    single,
                    double,
                ));
                continue ;
            }
            if c == ';' || c == '\n' {
                out.push((cur, Join::Then));
                cur = String::new();
                i = i + 1;
                assert(cur@ =~= Seq::empty());
                assert(before + rest =~= out.deep_view() + pieces_from(
                    command@,
                    i as int,
                    cur@,
                    single,
                    double,
                ));
                continue ;
            }
        }
        cur.push(c);
        i = i + 1;
    }
    let ghost before = out.deep_view();
    out.push((cur, Join::Then));
    assert(out.deep_view() =~= all);
    out
}

/// Split a shell line into segments, keeping the operator that follows each one.
///
/// The operator is worth preserving because `&&` carries a proof: if the command after it
/// produced output, the one before it must have exited zero.
///
/// Pipelines are kept intact: `pytest | tail` is one command whose output happens to be filtered.
pub fn split_with_joins(command: &str) -> (r: Vec<(String, Join)>)
    ensures
        r.deep_view() == steps_of(command@),
{
    let pieces = split_pieces(command);
    let mut out: Vec<(String, Join)> = Vec::new();
    let ghost all = pieces.deep_view();
    let ghost f = |p: (Seq<char>, Join)| step_of(p);
    for i in 0..pieces.len()
        invariant
            all == pieces.deep_view(),
            f == (|p: (Seq<char>, Join)| step_of(p)),
            out.deep_view() == lists::selected(all.take(i as int), f),
    {
        let t = text::trim(pieces[i].0.as_str());
        proof {
            lists::lemma_selected_step(all, f, i as int);
        }
        let ghost before = out.deep_view();
        if !t.as_str().is_empty() {
            out.push((t, pieces[i].1));
            assert(out.deep_view() =~= before.push((text::trimmed(all[i as int].0), all[i as int].1)));
        }
    }
    assert(all.take(all.len() as int) =~= all);
    out
}

/// Split a shell line into segments that each start a fresh command.
pub fn split_segments(command: &str) -> (r: Vec<String>)
    ensures
        r.deep_view() == segments_of(command@),
{
    let steps = split_with_joins(command);
    segments(&steps)
}

/// The commands of the steps.
pub fn segments(steps: &Vec<(String, Join)>) -> (r: Vec<String>)
    ensures
        r.deep_view() == steps.deep_view().map_values(|p: (Seq<char>, Join)| p.0),
{
    let mut out: Vec<String> = Vec::new();
    for i in 0..steps.len()
        invariant
            out@.len() == i,
            forall|k: int| 0 <= k < i ==> (#[trigger] out@[k])@ == steps@[k].0@,
    {
        out.push(steps[i].0.clone());
    }
    assert(out.deep_view() =~= steps.deep_view().map_values(|p: (Seq<char>, Join)| p.0));
    out
}

// ---------------------------------------------------------------- stripping wrappers

/// `timeout 240 `, `timeout --signal=KILL 30 `.
pub const TIMEOUT: &'static str = r"^timeout\s+(?:-[-\w=]+\s+)*[\d.]+[smhd]?\s+";

/// `python -m `, `python3.12 -m `, `py -m `.
pub const PY_M: &'static str = r"^(?:python[0-9.]*|py|pypy[0-9.]*)\s+-m\s+";

/// The expressions for what launches a command.
pub open spec fn is_launcher(p: Seq<char>) -> bool {
    p == TIMEOUT@ || p == PY_M@
}

/// The text starts with the word of a launcher: `timeout`, or one for Python, and no path.
pub open spec fn names_launcher(s: Seq<char>) -> bool {
    &&& text::begins(s, "timeout"@) || text::begins(s, "py"@)
    &&& !is_path(s.take(text::word_end(s)))
}

/// The commands that only hand over to the one after them.
pub open spec fn wrappers() -> Seq<Seq<char>> {
    seq![
        "uv run "@,
        "uvx "@,
        "poetry run "@,
        "pipenv run "@,
        "pdm run "@,
        "hatch run "@,
        "rye run "@,
        "conda run "@,
        "npx "@,
        "pnpm exec "@,
        "pnpm dlx "@,
        "yarn dlx "@,
        "yarn "@,
        "pnpm "@,
        "bunx "@,
        "time "@,
        "sudo "@,
        "env "@,
        "nice "@,
        "do "@,
    ]
}

/// A word names a file by its directory.
pub open spec fn is_path(word: Seq<char>) -> bool {
    word.contains('/') || word.contains('\\')
}

/// The command with the directory of its executable dropped.
pub open spec fn without_directory(s: Seq<char>) -> Seq<char> {
    let rest = match text::after_prefix(s, "./"@) {
        Some(r) => r,
        None => s,
    };
    let n = text::word_end(rest);
    let head = rest.take(n);
    if is_path(head) {
        let base = text::after_last(head, text::among("/\\"@));
        if n < rest.len() {
            base + " "@ + rest.skip(n + 1)
        } else {
            base
        }
    } else {
        s
    }
}

/// The command with the first `n` wrappers tried and dropped in turn.
pub open spec fn without_wrappers(s: Seq<char>, n: int) -> Seq<char>
    decreases n,
{
    if n <= 0 {
        s
    } else {
        let t = without_wrappers(s, n - 1);
        match text::after_prefix(t, wrappers()[n - 1]) {
            Some(rest) => text::front_trimmed(rest, text::whites()),
            None => t,
        }
    }
}

/// The command with what `found` matched at its start dropped.
pub open spec fn without_match(
    s: Seq<char>,
    found: Option<(Seq<char>, Seq<char>, Seq<char>)>,
) -> Seq<char> {
    match found {
        Some(f) => text::front_trimmed(f.2, text::whites()),
        None => s,
    }
}

/// One round: the directory, then each wrapper, then a timeout, then a Python interpreter.
pub open spec fn stripped_once(s: Seq<char>) -> Seq<char> {
    let a = without_wrappers(without_directory(s), wrappers().len() as int);
    let b = without_match(a, pattern::regex_find(TIMEOUT@, a));
    without_match(b, pattern::regex_find(PY_M@, b))
}

/// Where the command is `uv run ` and something behind it, the same is left of both.
pub open spec fn uv_run_is_moot(command: Seq<char>) -> bool {
    forall|rest: Seq<char>|
        text::trimmed(rest).len() > 0 && command == #[trigger] ("uv run "@ + rest) ==> stripped(
            text::trimmed(command),
        ) == stripped(text::trimmed(rest))
}

/// Rounds until one changes nothing.
pub open spec fn stripped(s: Seq<char>) -> Seq<char>
    decreases s.len(),
{
    let t = stripped_once(s);
    if t.len() < s.len() {
        stripped(t)
    } else {
        t
    }
}

/// A round leaves `t` of `s`: the same, or something shorter.
pub open spec fn same_or_shorter(t: Seq<char>, s: Seq<char>) -> bool {
    t == s || t.len() < s.len()
}

/// Drop a directory prefix on the executable: `.venv-test/bin/python` becomes `python`.
pub fn strip_directory(s: &str) -> (r: String)
    ensures
        r@ == without_directory(s@),
        same_or_shorter(r@, s@),
{
    let rest = match text::strip_prefix(s, "./") {
        Some(r) => r,
        None => s.to_owned(),
    };
    let cs = text::chars_of(rest.as_str());
    let n = text::first_white(&cs);
    let head = text::string_range(&cs, 0, n);
    assert(head@ =~= rest@.take(n as int));
    if text::contains_char(head.as_str(), '/') || text::contains_char(head.as_str(), '\\') {
        let mut base = text::after_last_of(head.as_str(), "/\\");
        proof {
            reveal_strlit("/\\");
            reveal_strlit(" ");
            let i = choose|i: int|
                0 <= i < head@.len() && (head@[i] == '/' || head@[i] == '\\');
            assert("/\\"@.contains(head@[i])) by {
                assert("/\\"@[0] == '/');
                assert("/\\"@[1] == '\\');
            }
            text::lemma_after_last_shorter(head@, text::among("/\\"@), i);
        }
        if n < cs.len() {
            let tail = text::string_range(&cs, n + 1, cs.len());
            assert(tail@ =~= rest@.skip(n + 1));
            base.append(" ");
            base.append(tail.as_str());
        }
        base
    } else {
        s.to_owned()
    }
}

/// Drop the wrappers that delegate to the real tool.
pub fn strip_wrappers(s: &str) -> (r: String)
    ensures
        r@ == without_wrappers(s@, wrappers().len() as int),
        same_or_shorter(r@, s@),
{
    let prefixes: [&str; 20] = [
        "uv run ",
        "uvx ",
        "poetry run ",
        "pipenv run ",
        "pdm run ",
        "hatch run ",
        "rye run ",
        "conda run ",
        "npx ",
        "pnpm exec ",
        "pnpm dlx ",
        "yarn dlx ",
        "yarn ",
        "pnpm ",
        "bunx ",
        "time ",
        "sudo ",
        "env ",
        "nice ",
        "do ",
    ];
    assert(prefixes.deep_view() =~= wrappers());
    let mut out = s.to_owned();
    for i in 0..20usize
        invariant
            prefixes.deep_view() == wrappers(),
            out@ == without_wrappers(s@, i as int),
            same_or_shorter(out@, s@),
    {
        assert(prefixes.deep_view()[i as int] == prefixes@[i as int]@);
        if let Some(rest) = text::strip_prefix(out.as_str(), prefixes[i]) {
            proof {
                text::lemma_front_trimmed(rest@, text::whites());
                assert(rest@.skip(0) =~= rest@);
                assert(out@.skip(0) =~= out@);
            }
            out = text::trim_start(rest.as_str());
        }
    }
    out
}

/// Drop what the pattern matches, where it matches.
fn strip_match(s: &str, p: &Pattern) -> (r: String)
    ensures
        r@ == without_match(s@, pattern::regex_find(p@, s@)),
        same_or_shorter(r@, s@),
        is_launcher(p@) ==> finds_a_start(p@, s@),
{
    match p.find(s) {
        Some(f) => {
            proof {
                if is_launcher(p@) {
                    lemma_launcher(s@);
                }
                text::lemma_front_trimmed(f.2@, text::whites());
                assert(f.2@.skip(0) =~= f.2@);
                if f.2@.len() == s@.len() {
                    assert(f.2@ =~= f.0@ + f.1@ + f.2@);
                }
            }
            text::trim_start(f.2.as_str())
        },
        None => s.to_owned(),
    }
}

/// Reduce a command to the tool that actually runs.
///
/// Real sessions rarely invoke a runner by its bare name. It arrives behind an environment
/// (`uv run pytest`), an interpreter (`python -m pytest`), or -- most commonly of all -- an
/// absolute or virtualenv-relative path (`.venv/bin/python -m pytest`, `./node_modules/.bin/jest`).
/// Each of those has to collapse to `pytest` or `jest`, or the run is invisible and an honest
/// claim gets reported as unsupported.
///
/// `uv run ` in front of a command never changes which tool is seen to run.
pub fn strip_invocation(segment: &str) -> (r: String)
    ensures
        r@ == stripped(text::trimmed(segment@)),
        stripped_once(r@) == r@,
        uv_run_is_moot(segment@),
{
    let timeout = Pattern::new(TIMEOUT);
    let py = Pattern::new(PY_M);
    let mut s = text::trim(segment);
    let ghost start = s@;
    loop
        invariant
            timeout@ == TIMEOUT@,
            py@ == PY_M@,
            stripped(s@) == stripped(start),
            start == text::trimmed(segment@),
            s@ != start ==> uv_run_is_moot(segment@),
        decreases s@.len(),
    {
        let bare = strip_directory(s.as_str());
        let unwrapped = strip_wrappers(bare.as_str());
        let untimed = strip_match(unwrapped.as_str(), &timeout);
        let next = strip_match(untimed.as_str(), &py);
        proof {
            if s@ == start {
                assert forall|rest: Seq<char>|
                    text::trimmed(rest).len() > 0 && segment@ == #[trigger] ("uv run "@ + rest) implies stripped(
                    start,
                ) == stripped(text::trimmed(rest)) by {
                    lemma_uv_run(rest);
                }
            }
        }
        if text::same(next.as_str(), s.as_str()) {
            return next;
        }
        s = next;
    }
}

// ---------------------------------------------------------------- attributing output

/// The literal text an `echo` segment prints, when it is a plain constant.
pub open spec fn echoed(segment: Seq<char>) -> Option<Seq<char>> {
    match text::after_prefix(text::trimmed(segment), "echo "@) {
        None => None,
        Some(r) => {
            let rest = text::trimmed(r);
            let lit = text::trimmed(text::trimmed_of(rest, "\"'"@));
            if rest.contains('$') || rest.contains('`') || text::begins(rest, "-"@) {
                None
            } else if text::byte_len_of(lit) < 3 {
                None
            } else {
                Some(lit)
            }
        },
    }
}

/// The literal text an `echo` segment prints, when it is a plain constant.
///
/// Anything interpolated is unusable as a landmark, so `$VAR` and command substitution
/// disqualify the segment.
pub fn echo_literal(segment: &str) -> (r: Option<String>)
    ensures
        r.deep_view() == echoed(segment@),
{
    let whole = text::trim(segment);
    match text::strip_prefix(whole.as_str(), "echo ") {
        None => None,
        Some(r) => {
            let rest = text::trim(r.as_str());
            if text::contains_char(rest.as_str(), '$') || text::contains_char(rest.as_str(), '`')
                || text::starts_with(rest.as_str(), "-") {
                return None;
            }
            let inner = text::trim_of(rest.as_str(), "\"'");
            let lit = text::trim(inner.as_str());
            if text::byte_len(lit.as_str()) < 3 {
                return None;
            }
            Some(lit)
        },
    }
}

/// A slice of a command's output, and whether it is known to belong to that command alone.
#[derive(Debug)]
pub struct Region {
    pub text: String,
    /// True when a landmark bounded this text, or the command had only one step.
    pub exclusive: bool,
}

/// What a [`Region`] stands for.
pub struct RegionModel {
    pub text: Seq<char>,
    pub exclusive: bool,
}

impl DeepView for Region {
    type V = RegionModel;

    open spec fn deep_view(&self) -> RegionModel {
        RegionModel { text: self.text@, exclusive: self.exclusive }
    }
}

/// Where the first `n` segments left their landmarks, and where the search goes on.
pub open spec fn marks_upto(segments: Seq<Seq<char>>, output: Seq<char>, n: int) -> (
    Seq<Option<(int, int)>>,
    int,
)
    decreases n,
{
    if n <= 0 {
        (Seq::empty(), 0)
    } else {
        let (marks, cursor) = marks_upto(segments, output, n - 1);
        match echoed(segments[n - 1]) {
            None => (marks.push(None), cursor),
            Some(lit) => match text::first_at(output, lit, cursor) {
                None => (marks.push(None), cursor),
                Some(at) => (marks.push(Some((at, at + lit.len()))), at + lit.len()),
            },
        }
    }
}

/// The last landmark among the first `n`.
pub open spec fn mark_before(marks: Seq<Option<(int, int)>>, n: int) -> Option<(int, int)>
    decreases n,
{
    if n <= 0 || n > marks.len() {
        None
    } else if marks[n - 1] is Some {
        marks[n - 1]
    } else {
        mark_before(marks, n - 1)
    }
}

/// The first landmark at or after position `n`.
pub open spec fn mark_after(marks: Seq<Option<(int, int)>>, n: int) -> Option<(int, int)>
    decreases marks.len() - n,
{
    if n < 0 || n >= marks.len() {
        None
    } else if marks[n] is Some {
        marks[n]
    } else {
        mark_after(marks, n + 1)
    }
}

/// The region of the output that segment `i` produced, between the landmarks on either side.
pub open spec fn region_of(marks: Seq<Option<(int, int)>>, output: Seq<char>, i: int) -> RegionModel {
    let before = mark_before(marks, i);
    let after = mark_after(marks, i + 1);
    let start = match before {
        Some(m) => m.1,
        None => 0,
    };
    let end = match after {
        Some(m) => m.0,
        None => output.len() as int,
    };
    RegionModel {
        text: if start >= end {
            Seq::empty()
        } else {
            output.subrange(start, end)
        },
        exclusive: marks.len() == 1 || before is Some || after is Some,
    }
}

/// The region of the output that each segment produced.
pub open spec fn regions_of(segments: Seq<Seq<char>>, output: Seq<char>) -> Seq<RegionModel> {
    let marks = marks_upto(segments, output, segments.len() as int).0;
    Seq::new(segments.len(), |i: int| region_of(marks, output, i))
}

/// The marks as mathematical positions.
pub open spec fn mark_positions(marks: Seq<Option<(usize, usize)>>) -> Seq<Option<(int, int)>> {
    marks.map_values(
        |m: Option<(usize, usize)>|
            match m {
                Some(p) => Some((p.0 as int, p.1 as int)),
                None => None,
            },
    )
}

/// Every landmark lies within the output.
pub open spec fn marks_within(marks: Seq<Option<(usize, usize)>>, n: int) -> bool {
    forall|i: int|
        0 <= i < marks.len() ==> (#[trigger] marks[i] matches Some(p) ==> p.0 <= p.1 <= n)
}

fn locate_marks(segments: &Vec<String>, cs: &Vec<char>) -> (r: Vec<Option<(usize, usize)>>)
    ensures
        r@.len() == segments@.len(),
        mark_positions(r@) == marks_upto(segments.deep_view(), cs@, segments@.len() as int).0,
        marks_within(r@, cs@.len() as int),
{
    let mut marks: Vec<Option<(usize, usize)>> = Vec::new();
    let mut cursor: usize = 0;
    let ghost segs = segments.deep_view();
    assert(mark_positions(marks@) =~= marks_upto(segs, cs@, 0).0);
    for i in 0..segments.len()
        invariant
            segs == segments.deep_view(),
            cursor <= cs.len(),
            marks@.len() == i,
            marks_upto(segs, cs@, i as int) == (mark_positions(marks@), cursor as int),
            marks_within(marks@, cs@.len() as int),
    {
        let ghost before = mark_positions(marks@);
        let mut mark: Option<(usize, usize)> = None;
        if let Some(lit) = echo_literal(segments[i].as_str()) {
            let ls = text::chars_of(lit.as_str());
            proof {
                text::lemma_first_at(cs@, ls@, cursor as int);
            }
            if let Some(at) = text::find_from(cs, &ls, cursor) {
                assert(text::occurs_at(cs@, ls@, at as int));
                mark = Some((at, at + ls.len()));
                cursor = at + ls.len();
            }
        }
        marks.push(mark);
        assert(mark_positions(marks@) =~= before.push(
            match mark {
                Some(p) => Some((p.0 as int, p.1 as int)),
                None => None,
            },
        ));
    }
    marks
}

fn region_at(marks: &Vec<Option<(usize, usize)>>, cs: &Vec<char>, i: usize) -> (r: Region)
    requires
        i < marks@.len(),
        marks_within(marks@, cs@.len() as int),
    ensures
        r.deep_view() == region_of(mark_positions(marks@), cs@, i as int),
{
    let ghost ms = mark_positions(marks@);
    let mut start: usize = 0;
    let mut end: usize = cs.len();
    let mut bounded = false;
    let mut k: usize = i;
    while k > 0 && marks[k - 1].is_none()
        invariant
            k <= i < marks@.len(),
            ms == mark_positions(marks@),
            mark_before(ms, i as int) == mark_before(ms, k as int),
        decreases k,
    {
        assert(ms[k - 1] is None);
        k = k - 1;
    }
    if k > 0 {
        if let Some(p) = marks[k - 1] {
            assert(ms[k - 1] == Some((p.0 as int, p.1 as int)));
            start = p.1;
            bounded = true;
        }
    }
    let total = marks.len();
    let mut j: usize = i + 1;
    while j < total && marks[j].is_none()
        invariant
            i + 1 <= j <= total,
            total == marks.len(),
            ms == mark_positions(marks@),
            mark_after(ms, i + 1) == mark_after(ms, j as int),
        decreases total - j,
    {
        assert(ms[j as int] is None);
        j = j + 1;
    }
    if j < total {
        if let Some(p) = marks[j] {
            assert(ms[j as int] == Some((p.0 as int, p.1 as int)));
            end = p.0;
            bounded = true;
        }
    }
    let slice = if start >= end {
        String::new()
    } else {
        text::string_range(cs, start, end)
    };
    Region { text: slice, exclusive: marks.len() == 1 || bounded }
}

/// Split a chained command's output into the region produced by each segment.
///
/// Agents habitually separate the parts of a chained command with `echo "=== lint ==="`, which
/// leaves a findable landmark in the combined output. Where those landmarks can be located,
/// each check is parsed against only the text it actually produced. Without them every parser
/// sees the whole stream, and a linter's "All checks passed!" can end up cited as the evidence
/// for a claim about tests.
pub fn attribute_output(segments: &Vec<String>, output: &str) -> (r: Vec<Region>)
    ensures
        r.deep_view() == regions_of(segments.deep_view(), output@),
{
    let cs = text::chars_of(output);
    let marks = locate_marks(segments, &cs);
    let mut out: Vec<Region> = Vec::new();
    for i in 0..segments.len()
        invariant
            cs@ == output@,
            marks@.len() == segments@.len(),
            marks_within(marks@, cs@.len() as int),
            out@.len() == i,
            forall|k: int|
                0 <= k < i ==> (#[trigger] out@[k]).deep_view() == region_of(
                    mark_positions(marks@),
                    output@,
                    k,
                ),
    {
        out.push(region_at(&marks, &cs, i));
    }
    assert(out.deep_view() =~= regions_of(segments.deep_view(), output@));
    out
}

// ---------------------------------------------------------------- laws

/// The character neither separates commands nor opens a quotation.
pub open spec fn is_plain(c: char) -> bool {
    c != '&' && c != '|' && c != ';' && c != '\n' && c != '\'' && c != '"'
}

proof fn lemma_plain_pieces(s: Seq<char>, i: int, cur: Seq<char>)
    requires
        0 <= i <= s.len(),
        forall|k: int| i <= k < s.len() ==> is_plain(#[trigger] s[k]),
    ensures
        pieces_from(s, i, cur, false, false) == seq![(cur + s.skip(i), Join::Then)],
    decreases s.len() - i,
{
    if i < s.len() {
        assert(is_plain(s[i]));
        lemma_plain_pieces(s, i + 1, cur.push(s[i]));
        assert(cur.push(s[i]) + s.skip(i + 1) =~= cur + s.skip(i));
    } else {
        assert(cur + s.skip(i) =~= cur);
    }
}

/// A command without separators and quotes is one step.
pub proof fn law_a_plain_command_is_one_step(command: Seq<char>)
    requires
        forall|k: int| 0 <= k < command.len() ==> is_plain(#[trigger] command[k]),
        text::trimmed(command).len() > 0,
    ensures
        steps_of(command) == seq![(text::trimmed(command), Join::Then)],
{
    lemma_plain_pieces(command, 0, Seq::empty());
    let f = |p: (Seq<char>, Join)| step_of(p);
    let pieces = seq![(Seq::<char>::empty() + command.skip(0), Join::Then)];
    assert(Seq::<char>::empty() + command.skip(0) =~= command);
    assert(pieces.drop_last() =~= Seq::empty());
    assert(lists::selected(pieces.drop_last(), f) =~= Seq::empty());
    assert(steps_of(command) =~= seq![(text::trimmed(command), Join::Then)]);
}

/// Inside quotes nothing separates commands: up to the closing quote, everything belongs to the
/// piece that is being read.
pub proof fn law_quoted_text_does_not_split(
    command: Seq<char>,
    i: int,
    j: int,
    cur: Seq<char>,
    single: bool,
)
    requires
        0 <= i <= j <= command.len(),
        forall|k: int|
            i <= k < j ==> #[trigger] command[k] != (if single {
                '\''
            } else {
                '"'
            }),
    ensures
        pieces_from(command, i, cur, single, !single) == pieces_from(
            command,
            j,
            cur + command.subrange(i, j),
            single,
            !single,
        ),
    decreases j - i,
{
    if i < j {
        law_quoted_text_does_not_split(command, i + 1, j, cur.push(command[i]), single);
        assert(cur.push(command[i]) + command.subrange(i + 1, j) =~= cur + command.subrange(i, j));
    } else {
        assert(cur + command.subrange(i, j) =~= cur);
    }
}

/// A single pipe keeps a pipeline together: where no other character follows that would make it
/// `||`, reading goes on in the same piece.
pub proof fn law_a_pipe_does_not_split(command: Seq<char>, i: int, cur: Seq<char>)
    requires
        0 <= i < command.len(),
        command[i] == '|',
        i + 1 < command.len() ==> command[i + 1] != '|',
    ensures
        pieces_from(command, i, cur, false, false) == pieces_from(
            command,
            i + 1,
            cur.push('|'),
            false,
            false,
        ),
{
}

/// Which quotes are open behind a command, given those open at position `i`.
pub open spec fn quotes_behind(s: Seq<char>, i: int, single: bool, double: bool) -> (bool, bool)
    decreases s.len() - i,
{
    if i < 0 || i >= s.len() {
        (single, double)
    } else {
        quotes_behind(
            s,
            i + 1,
            toggled_single(s[i], single, double),
            toggled_double(s[i], single, double),
        )
    }
}

proof fn lemma_pieces_behind(
    a: Seq<char>,
    s: Seq<char>,
    i: int,
    cur: Seq<char>,
    single: bool,
    double: bool,
)
    requires
        0 <= i,
    ensures
        pieces_from(a + s, a.len() + i, cur, single, double) == pieces_from(
            s,
            i,
            cur,
            single,
            double,
        ),
    decreases s.len() - i,
{
    if i < s.len() {
        let c = s[i];
        let s2 = toggled_single(c, single, double);
        let d2 = toggled_double(c, single, double);
        assert((a + s)[a.len() + i] == c);
        assert(doubled_at(a + s, a.len() + i) == doubled_at(s, i));
        if !s2 && !d2 && doubled_at(s, i) {
            lemma_pieces_behind(a, s, i + 2, Seq::empty(), s2, d2);
        } else if !s2 && !d2 && (c == ';' || c == '\n') {
            lemma_pieces_behind(a, s, i + 1, Seq::empty(), s2, d2);
        } else {
            lemma_pieces_behind(a, s, i + 1, cur.push(c), s2, d2);
        }
    }
}

proof fn lemma_pieces_joined(
    a: Seq<char>,
    sep: char,
    b: Seq<char>,
    i: int,
    cur: Seq<char>,
    single: bool,
    double: bool,
)
    requires
        sep == ';' || sep == '\n',
        0 <= i <= a.len(),
        quotes_behind(a, i, single, double) == (false, false),
    ensures
        pieces_from(a + seq![sep] + b, i, cur, single, double) == pieces_from(
            a,
            i,
            cur,
            single,
            double,
        ) + pieces_from(b, 0, Seq::empty(), false, false),
    decreases a.len() - i,
{
    let all = a + seq![sep] + b;
    let behind = pieces_from(b, 0, Seq::empty(), false, false);
    if i == a.len() {
        assert(all[i] == sep);
        lemma_pieces_behind(a + seq![sep], b, 0, Seq::empty(), false, false);
        assert(!doubled_at(all, i));
    } else {
        let c = a[i];
        let s2 = toggled_single(c, single, double);
        let d2 = toggled_double(c, single, double);
        assert(all[i] == c);
        assert(doubled_at(all, i) == doubled_at(a, i)) by {
            if i + 1 == a.len() {
                assert(all[i + 1] == sep);
            } else {
                assert(all[i + 1] == a[i + 1]);
            }
        }
        if !s2 && !d2 && doubled_at(a, i) {
            assert(quotes_behind(a, i + 1, s2, d2) == quotes_behind(a, i + 2, s2, d2));
            lemma_pieces_joined(a, sep, b, i + 2, Seq::empty(), s2, d2);
            let join = if c == '&' {
                Join::AndThen
            } else {
                Join::OrElse
            };
            let rest = pieces_from(a, i + 2, Seq::empty(), s2, d2);
            assert(seq![(cur, join)] + (rest + behind) =~= (seq![(cur, join)] + rest) + behind);
        } else if !s2 && !d2 && (c == ';' || c == '\n') {
            lemma_pieces_joined(a, sep, b, i + 1, Seq::empty(), s2, d2);
            let rest = pieces_from(a, i + 1, Seq::empty(), s2, d2);
            assert(seq![(cur, Join::Then)] + (rest + behind) =~= (seq![(cur, Join::Then)] + rest)
                + behind);
        } else {
            lemma_pieces_joined(a, sep, b, i + 1, cur.push(c), s2, d2);
        }
    }
}

/// Two commands with `;` or a line feed between them have the steps of each, one after the other,
/// where the first leaves no quotes open.
pub proof fn law_a_separator_joins_commands(a: Seq<char>, sep: char, b: Seq<char>)
    requires
        sep == ';' || sep == '\n',
        quotes_behind(a, 0, false, false) == (false, false),
    ensures
        steps_of(a + seq![sep] + b) == steps_of(a) + steps_of(b),
        segments_of(a + seq![sep] + b) == segments_of(a) + segments_of(b),
{
    lemma_pieces_joined(a, sep, b, 0, Seq::empty(), false, false);
    lists::lemma_selected_concat(
        pieces_from(a, 0, Seq::empty(), false, false),
        pieces_from(b, 0, Seq::empty(), false, false),
        |p: (Seq<char>, Join)| step_of(p),
    );
    assert(segments_of(a + seq![sep] + b) =~= segments_of(a) + segments_of(b));
}

/// No step is blank: each is what is left of a piece once the white space around it is gone.
pub proof fn law_steps_are_not_blank(command: Seq<char>, i: int)
    requires
        0 <= i < steps_of(command).len(),
    ensures
        steps_of(command)[i].0.len() > 0,
        exists|raw: Seq<char>| steps_of(command)[i].0 == #[trigger] text::trimmed(raw),
{
    let pieces = pieces_from(command, 0, Seq::empty(), false, false);
    let f = |p: (Seq<char>, Join)| step_of(p);
    lists::lemma_selected_from(pieces, f);
    let k = choose|k: int|
        0 <= k < pieces.len() && f(#[trigger] pieces[k]) == Some(steps_of(command)[i]);
    assert(steps_of(command)[i].0 == text::trimmed(pieces[k].0));
}

/// A command of a single step owns all of its output.
pub proof fn law_a_single_step_owns_its_output(segments: Seq<Seq<char>>, output: Seq<char>)
    requires
        segments.len() == 1,
    ensures
        regions_of(segments, output).len() == 1,
        regions_of(segments, output)[0].text == output,
        regions_of(segments, output)[0].exclusive,
{
    lemma_marks(segments, output, 1);
    let marks = marks_upto(segments, output, 1).0;
    assert(mark_before(marks, 0) is None);
    assert(mark_after(marks, 1) is None);
    assert(output.subrange(0, output.len() as int) =~= output);
    assert(regions_of(segments, output)[0].text =~= output);
}

/// There is one mark for each segment; the landmarks lie within the output and follow one another.
proof fn lemma_marks(segments: Seq<Seq<char>>, output: Seq<char>, n: int)
    requires
        0 <= n <= segments.len(),
    ensures
        marks_upto(segments, output, n).0.len() == n,
        0 <= marks_upto(segments, output, n).1 <= output.len(),
        forall|i: int|
            0 <= i < n ==> (#[trigger] marks_upto(segments, output, n).0[i] matches Some(m) ==> 0
                <= m.0 <= m.1 <= marks_upto(segments, output, n).1),
    decreases n,
{
    if n > 0 {
        lemma_marks(segments, output, n - 1);
        let (marks, cursor) = marks_upto(segments, output, n - 1);
        match echoed(segments[n - 1]) {
            Some(lit) => {
                text::lemma_first_at(output, lit, cursor);
            },
            None => {},
        }
    }
}

/// What a step is said to have printed is a stretch of the output, or nothing.
pub proof fn law_regions_are_stretches_of_the_output(
    segments: Seq<Seq<char>>,
    output: Seq<char>,
    i: int,
)
    requires
        0 <= i < segments.len(),
    ensures
        regions_of(segments, output).len() == segments.len(),
        regions_of(segments, output)[i].text.len() == 0 || exists|a: int, b: int|
            0 <= a < b <= output.len() && regions_of(segments, output)[i].text
                == #[trigger] output.subrange(a, b),
{
    let n = segments.len() as int;
    lemma_marks(segments, output, n);
    let marks = marks_upto(segments, output, n).0;
    lemma_mark_before(marks, i);
    lemma_mark_after(marks, i + 1);
    let a = match mark_before(marks, i) {
        Some(m) => m.1,
        None => 0,
    };
    let b = match mark_after(marks, i + 1) {
        Some(m) => m.0,
        None => output.len() as int,
    };
    if a < b {
        assert(regions_of(segments, output)[i].text == output.subrange(a, b));
    }
}

proof fn lemma_mark_before(marks: Seq<Option<(int, int)>>, n: int)
    requires
        0 <= n <= marks.len(),
    ensures
        mark_before(marks, n) matches Some(m) ==> exists|k: int|
            0 <= k < n && #[trigger] marks[k] == Some(m),
    decreases n,
{
    if n > 0 {
        if marks[n - 1] is Some {
            assert(marks[n - 1] == mark_before(marks, n));
        } else {
            lemma_mark_before(marks, n - 1);
        }
    }
}

proof fn lemma_mark_after(marks: Seq<Option<(int, int)>>, n: int)
    requires
        0 <= n <= marks.len(),
    ensures
        mark_after(marks, n) matches Some(m) ==> exists|k: int|
            n <= k < marks.len() && #[trigger] marks[k] == Some(m),
    decreases marks.len() - n,
{
    if n < marks.len() {
        if marks[n] is Some {
            assert(marks[n] == mark_after(marks, n));
        } else {
            lemma_mark_after(marks, n + 1);
        }
    }
}

/// The text starts with a word that is no path, and white space behind it.
spec fn has_first_word(w: Seq<char>) -> bool {
    w.len() > 0 && w[0] != '.' && exists|k: int|
        0 <= k < w.len() && #[trigger] w[k] == ' ' && (forall|j: int|
            0 <= j < k ==> !text::is_white(#[trigger] w[j]) && w[j] != '/' && w[j] != '\\')
}

proof fn lemma_first_word(w: Seq<char>, k: int)
    requires
        0 <= k < w.len(),
        w[0] != '.',
        w[k] == ' ',
        forall|j: int|
            0 <= j < k ==> !text::is_white(#[trigger] w[j]) && w[j] != '/' && w[j] != '\\',
    ensures
        has_first_word(w),
{
}

/// What each wrapper spells, as far as proofs need it.
proof fn lemma_wrapper_letters()
    ensures
        forall|i: int| 0 <= i < wrappers().len() ==> has_first_word(#[trigger] wrappers()[i]),
        forall|i: int|
            1 <= i < wrappers().len() ==> (#[trigger] wrappers()[i]).len() > 2 && (wrappers()[i][0]
                != 'u' || wrappers()[i][2] != ' '),
{
    reveal_strlit("uv run ");
    reveal_strlit("uvx ");
    reveal_strlit("poetry run ");
    reveal_strlit("pipenv run ");
    reveal_strlit("pdm run ");
    reveal_strlit("hatch run ");
    reveal_strlit("rye run ");
    reveal_strlit("conda run ");
    reveal_strlit("npx ");
    reveal_strlit("pnpm exec ");
    reveal_strlit("pnpm dlx ");
    reveal_strlit("yarn dlx ");
    reveal_strlit("yarn ");
    reveal_strlit("pnpm ");
    reveal_strlit("bunx ");
    reveal_strlit("time ");
    reveal_strlit("sudo ");
    reveal_strlit("env ");
    reveal_strlit("nice ");
    reveal_strlit("do ");
    lemma_first_word("uv run "@, 2);
    lemma_first_word("uvx "@, 3);
    lemma_first_word("poetry run "@, 6);
    lemma_first_word("pipenv run "@, 6);
    lemma_first_word("pdm run "@, 3);
    lemma_first_word("hatch run "@, 5);
    lemma_first_word("rye run "@, 3);
    lemma_first_word("conda run "@, 5);
    lemma_first_word("npx "@, 3);
    lemma_first_word("pnpm exec "@, 4);
    lemma_first_word("pnpm dlx "@, 4);
    lemma_first_word("yarn dlx "@, 4);
    lemma_first_word("yarn "@, 4);
    lemma_first_word("pnpm "@, 4);
    lemma_first_word("bunx "@, 4);
    lemma_first_word("time "@, 4);
    lemma_first_word("sudo "@, 4);
    lemma_first_word("env "@, 3);
    lemma_first_word("nice "@, 4);
    lemma_first_word("do "@, 2);
}

/// The command names its executable by its directory.
pub open spec fn has_directory(s: Seq<char>) -> bool {
    let rest = match text::after_prefix(s, "./"@) {
        Some(r) => r,
        None => s,
    };
    is_path(rest.take(text::word_end(rest)))
}

proof fn lemma_path_has_no_wrapper(s: Seq<char>, i: int)
    requires
        has_directory(s),
        0 <= i < wrappers().len(),
    ensures
        !text::begins(s, wrappers()[i]),
{
    let w = wrappers()[i];
    lemma_wrapper_letters();
    if text::begins(s, w) {
        let k = choose|k: int|
            0 <= k < w.len() && #[trigger] w[k] == ' ' && (forall|j: int|
                0 <= j < k ==> !text::is_white(#[trigger] w[j]) && w[j] != '/' && w[j] != '\\');
        let front = s.subrange(0, w.len() as int);
        assert forall|j: int| 0 <= j < w.len() implies s[j] == #[trigger] w[j] by {
            assert(front[j] == s[j]);
        }
        reveal_strlit("./");
        if text::begins(s, "./"@) {
            assert(s.subrange(0, 2)[0] == s[0]);
            assert(w[0] == '.');
        }
        text::lemma_word_end(s);
        let n = text::word_end(s);
        assert(n <= k) by {
            assert(s[k] == w[k]);
        }
        let head = s.take(n);
        assert forall|j: int| 0 <= j < head.len() implies head[j] != '/' && head[j] != '\\' by {
            assert(s[j] == w[j]);
        }
    }
}

proof fn lemma_no_wrapper(s: Seq<char>, from: int, n: int)
    requires
        0 <= from,
        n <= wrappers().len(),
        forall|i: int|
            from <= i < wrappers().len() ==> !text::begins(s, #[trigger] wrappers()[i]),
    ensures
        forall|t: Seq<char>|
            from <= n && #[trigger] without_wrappers(t, from) == s ==> without_wrappers(t, n) == s,
    decreases n - from,
{
    if from < n {
        lemma_no_wrapper(s, from, n - 1);
        assert(!text::begins(s, wrappers()[n - 1]));
    }
}

/// After `uv run ` no other wrapper begins the command.
proof fn lemma_only_uv_run(s: Seq<char>, i: int)
    requires
        text::begins(s, "uv run "@),
        1 <= i < wrappers().len(),
    ensures
        !text::begins(s, wrappers()[i]),
{
    reveal_strlit("uv run ");
    lemma_wrapper_letters();
    let w = wrappers()[i];
    let front = s.subrange(0, 7);
    assert(front[0] == s[0] && front[2] == s[2]);
    if text::begins(s, w) {
        let front = s.subrange(0, w.len() as int);
        assert(front[0] == s[0] && front[2] == s[2]);
    }
}

proof fn lemma_wrappers_shrink(s: Seq<char>, n: int)
    requires
        n <= wrappers().len(),
    ensures
        same_or_shorter(without_wrappers(s, n), s),
    decreases n,
{
    if n > 0 {
        lemma_wrappers_shrink(s, n - 1);
        lemma_wrapper_letters();
        let t = without_wrappers(s, n - 1);
        if text::begins(t, wrappers()[n - 1]) {
            text::lemma_front_trimmed(t.skip(wrappers()[n - 1].len() as int), text::whites());
        }
    }
}

proof fn lemma_wrappers_agree(s: Seq<char>, t: Seq<char>, n: int)
    requires
        without_wrappers(s, 1) == without_wrappers(t, 1),
        1 <= n,
    ensures
        without_wrappers(s, n) == without_wrappers(t, n),
    decreases n,
{
    if n > 1 {
        lemma_wrappers_agree(s, t, n - 1);
    }
}

/// What the expression finds makes up the command together with what is before and behind it, and
/// it finds nothing in a command that starts with a path or with `uv run`.
spec fn finds_a_start(p: Seq<char>, s: Seq<char>) -> bool {
    pattern::regex_find(p, s) matches Some(f) ==> f.0 + f.1 + f.2 == s && !has_directory(s)
        && !text::begins(s, "uv run "@)
}

proof fn lemma_launcher(s: Seq<char>)
    requires
        names_launcher(s),
    ensures
        !has_directory(s),
        !text::begins(s, "uv run "@),
{
    reveal_strlit("timeout");
    reveal_strlit("py");
    reveal_strlit("./");
    reveal_strlit("uv run ");
    if text::begins(s, "timeout"@) {
        assert(s.subrange(0, 7)[0] == s[0]);
    } else {
        assert(s.subrange(0, 2)[0] == s[0]);
    }
    if text::begins(s, "./"@) {
        assert(s.subrange(0, 2)[0] == s[0]);
    }
    if text::begins(s, "uv run "@) {
        assert(s.subrange(0, 7)[0] == s[0]);
    }
}

proof fn lemma_match_shrinks(p: Seq<char>, s: Seq<char>)
    requires
        finds_a_start(p, s),
    ensures
        same_or_shorter(without_match(s, pattern::regex_find(p, s)), s),
{
    if let Some(f) = pattern::regex_find(p, s) {
        text::lemma_front_trimmed(f.2, text::whites());
        let t = text::front_trimmed(f.2, text::whites());
        if t.len() == s.len() {
            assert(f.2.skip(0) =~= f.2);
            assert(f.2 =~= f.0 + f.1 + f.2);
        }
    }
}

/// `uv run ` in front of a command leaves what the command leaves.
proof fn lemma_uv_run(s: Seq<char>)
    requires
        text::trimmed(s).len() > 0,
        ({
            let x = text::trimmed("uv run "@ + s);
            let a = without_wrappers(without_directory(x), wrappers().len() as int);
            let b = without_match(a, pattern::regex_find(TIMEOUT@, a));
            finds_a_start(TIMEOUT@, a) && finds_a_start(PY_M@, b)
        }),
    ensures
        stripped(text::trimmed("uv run "@ + s)) == stripped(text::trimmed(s)),
{
    let w = "uv run "@;
    reveal_strlit("uv run ");
    reveal_strlit("./");
    let u = text::trimmed(s);
    let v = text::back_trimmed(s, text::whites());
    text::lemma_trims_commute(s);
    text::lemma_back_trimmed_behind(w, s, text::whites());
    let x = w + v;
    assert((w + s)[0] == 'u');
    assert(text::trimmed(w + s) == x);
    assert(x[0] == 'u' && x[1] == 'v' && x[2] == ' ');
    assert(!text::begins(x, "./"@)) by {
        if text::begins(x, "./"@) {
            assert(x.subrange(0, 2)[0] == '.');
        }
    }
    text::lemma_word_end(x);
    assert(text::word_end(x) <= 2) by {
        if text::word_end(x) > 2 {
            assert(!text::is_white(x[2]));
        }
    }
    assert(without_directory(x) == x);
    assert(x.subrange(0, 7) =~= w);
    assert(x.skip(7) =~= v);
    assert(wrappers()[0] == w);
    let count = wrappers().len() as int;
    assert(without_wrappers(x, 1) == u) by {
        assert(without_wrappers(x, 0) == x);
    }
    if has_directory(u) || text::begins(u, w) {
        assert forall|i: int| 1 <= i < wrappers().len() implies !text::begins(
            u,
            #[trigger] wrappers()[i],
        ) by {
            if has_directory(u) {
                lemma_path_has_no_wrapper(u, i);
            } else {
                lemma_only_uv_run(u, i);
            }
        }
        lemma_no_wrapper(u, 1, count);
        assert(without_wrappers(x, count) == u);
        assert(finds_a_start(TIMEOUT@, u));
        assert(finds_a_start(PY_M@, u));
        assert(stripped_once(x) == u);
        text::lemma_back_trimmed(s, text::whites());
        text::lemma_front_trimmed(v, text::whites());
    } else {
        assert(without_directory(u) == u);
        assert(without_wrappers(u, 1) == u) by {
            assert(without_wrappers(u, 0) == u);
        }
        lemma_wrappers_agree(x, u, count);
        let a = without_wrappers(u, count);
        lemma_wrappers_shrink(u, count);
        assert(finds_a_start(TIMEOUT@, a));
        lemma_match_shrinks(TIMEOUT@, a);
        let b = without_match(a, pattern::regex_find(TIMEOUT@, a));
        assert(finds_a_start(PY_M@, b));
        lemma_match_shrinks(PY_M@, b);
        let t = stripped_once(u);
        assert(stripped_once(x) == t);
        text::lemma_front_trimmed(v, text::whites());
        assert(t.len() <= u.len() < x.len());
    }
}

// ---------------------------------------------------------------- how commands are taken apart

/// A plain command in front of another is read as one piece.
proof fn lemma_plain_front(a: Seq<char>, b: Seq<char>, i: int)
    requires
        0 <= i <= a.len(),
        forall|k: int|
            0 <= k < a.len() ==> #[trigger] a[k] != '&' && a[k] != '|' && a[k] != ';' && a[k]
                != '\n' && a[k] != '\'' && a[k] != '"',
    ensures
        pieces_from(a + b, i, a.take(i), false, false) == pieces_from(
            a + b,
            a.len() as int,
            a,
            false,
            false,
        ),
    decreases a.len() - i,
{
    if i < a.len() {
        assert((a + b)[i] == a[i]);
        assert(a.take(i).push(a[i]) =~= a.take(i + 1));
        lemma_plain_front(a, b, i + 1);
    } else {
        assert(a.take(i) =~= a);
    }
}

/// `&&` and `||` end a step, and which of the two it was is kept; `;` and a line feed end one too.
/// The operators themselves belong to no step.
pub proof fn law_how_operators_end_a_step(a: Seq<char>, b: Seq<char>)
    requires
        text::trimmed(a).len() > 0,
        forall|k: int|
            0 <= k < a.len() ==> #[trigger] a[k] != '&' && a[k] != '|' && a[k] != ';' && a[k]
                != '\n' && a[k] != '\'' && a[k] != '"',
    ensures
        steps_of(a + seq!['&', '&'] + b) == seq![(text::trimmed(a), Join::AndThen)] + steps_of(b),
        steps_of(a + seq!['|', '|'] + b) == seq![(text::trimmed(a), Join::OrElse)] + steps_of(b),
        steps_of(a + seq![';'] + b) == seq![(text::trimmed(a), Join::Then)] + steps_of(b),
        steps_of(a + seq!['\n'] + b) == seq![(text::trimmed(a), Join::Then)] + steps_of(b),
        steps_of(a) == seq![(text::trimmed(a), Join::Then)],
{
    lemma_operator(a, seq!['&', '&'], b, Join::AndThen);
    lemma_operator(a, seq!['|', '|'], b, Join::OrElse);
    lemma_operator(a, seq![';'], b, Join::Then);
    lemma_operator(a, seq!['\n'], b, Join::Then);
    assert forall|k: int| 0 <= k < a.len() implies is_plain(#[trigger] a[k]) by {}
    law_a_plain_command_is_one_step(a);
}

proof fn lemma_operator(a: Seq<char>, op: Seq<char>, b: Seq<char>, join: Join)
    requires
        text::trimmed(a).len() > 0,
        forall|k: int|
            0 <= k < a.len() ==> #[trigger] a[k] != '&' && a[k] != '|' && a[k] != ';' && a[k]
                != '\n' && a[k] != '\'' && a[k] != '"',
        ({
            ||| op == seq!['&', '&'] && join == Join::AndThen
            ||| op == seq!['|', '|'] && join == Join::OrElse
            ||| op == seq![';'] && join == Join::Then
            ||| op == seq!['\n'] && join == Join::Then
        }),
    ensures
        steps_of(a + op + b) == seq![(text::trimmed(a), join)] + steps_of(b),
{
    let s = a + op + b;
    let n = a.len() as int;
    assert(s =~= a + (op + b));
    assert(a.take(0) =~= Seq::<char>::empty());
    lemma_plain_front(a, op + b, 0);
    assert(s[n] == op[0]);
    if op.len() == 2 {
        assert(s[n + 1] == op[1]);
    }
    lemma_pieces_behind(a + op, b, 0, Seq::empty(), false, false);
    let rest = pieces_from(b, 0, Seq::empty(), false, false);
    let pieces = pieces_from(s, 0, Seq::empty(), false, false);
    assert(pieces == seq![(a, join)] + rest);
    let f = |p: (Seq<char>, Join)| step_of(p);
    lists::lemma_selected_concat(seq![(a, join)], rest, f);
    let one = seq![(a, join)];
    assert(one.drop_last() =~= Seq::empty());
    assert(lists::selected(one.drop_last(), f) =~= Seq::empty());
    assert(lists::selected(one, f) =~= seq![(text::trimmed(a), join)]);
}

/// A quotation is one step, whatever stands in it.
pub proof fn law_a_quotation_is_one_step(quote: char, inside: Seq<char>)
    requires
        quote == '\'' || quote == '"',
        !inside.contains(quote),
    ensures
        steps_of(seq![quote] + inside + seq![quote]) == seq![
            (text::trimmed(seq![quote] + inside + seq![quote]), Join::Then),
        ],
{
    let s = seq![quote] + inside + seq![quote];
    let n = s.len() as int;
    let single = quote == '\'';
    assert(s[0] == quote && s[n - 1] == quote);
    assert forall|k: int| 1 <= k < n - 1 implies #[trigger] s[k] != quote by {
        assert(s[k] == inside[k - 1]);
        assert(inside.contains(inside[k - 1]));
    }
    let cur = Seq::<char>::empty().push(quote);
    law_quoted_text_does_not_split(s, 1, n - 1, cur, single);
    let most = cur + s.subrange(1, n - 1);
    assert(most.push(quote) =~= s);
    assert(pieces_from(s, 0, Seq::empty(), false, false) == pieces_from(
        s,
        1,
        cur,
        single,
        !single,
    ));
    assert(pieces_from(s, n, s, false, false) == seq![(s, Join::Then)]);
    assert(pieces_from(s, n - 1, most, single, !single) == pieces_from(s, n, s, false, false));
    let f = |p: (Seq<char>, Join)| step_of(p);
    let one = seq![(s, Join::Then)];
    assert(one.drop_last() =~= Seq::empty());
    assert(lists::selected(one.drop_last(), f) =~= Seq::empty());
    assert(!text::is_white(quote));
    text::lemma_trimmed_not_empty(s);
    assert(lists::selected(one, f) =~= seq![(text::trimmed(s), Join::Then)]);
}

/// A command loses the wrapper that it begins with, and the white space behind that: each of the
/// wrappers, where none that comes before it in the list takes it first and none is left.
pub proof fn law_each_wrapper_is_dropped(table: Seq<Seq<char>>, k: int, rest: Seq<char>)
    requires
        table == seq![
            "uv run "@,
            "uvx "@,
            "poetry run "@,
            "pipenv run "@,
            "pdm run "@,
            "hatch run "@,
            "rye run "@,
            "conda run "@,
            "npx "@,
            "pnpm exec "@,
            "pnpm dlx "@,
            "yarn dlx "@,
            "yarn "@,
            "pnpm "@,
            "bunx "@,
            "time "@,
            "sudo "@,
            "env "@,
            "nice "@,
            "do "@,
        ],
        0 <= k < table.len(),
        forall|j: int| 0 <= j < k ==> !text::begins(table[k] + rest, #[trigger] table[j]),
        forall|j: int|
            0 <= j < table.len() ==> !text::begins(
                text::front_trimmed(rest, text::whites()),
                #[trigger] table[j],
            ),
    ensures
        without_wrappers(table[k] + rest, wrappers().len() as int) == text::front_trimmed(
            rest,
            text::whites(),
        ),
{
    assert(wrappers() =~= table);
    let s = table[k] + rest;
    let t = text::front_trimmed(rest, text::whites());
    lemma_untouched(s, k);
    assert(s.subrange(0, table[k].len() as int) =~= table[k]);
    assert(s.skip(table[k].len() as int) =~= rest);
    assert(without_wrappers(s, k + 1) == t);
    lemma_untouched_from(s, t, k + 1, table.len() as int);
}

/// A command that begins with none of the wrappers keeps its first word.
pub proof fn law_only_wrappers_are_dropped(table: Seq<Seq<char>>, s: Seq<char>)
    requires
        table == seq![
            "uv run "@,
            "uvx "@,
            "poetry run "@,
            "pipenv run "@,
            "pdm run "@,
            "hatch run "@,
            "rye run "@,
            "conda run "@,
            "npx "@,
            "pnpm exec "@,
            "pnpm dlx "@,
            "yarn dlx "@,
            "yarn "@,
            "pnpm "@,
            "bunx "@,
            "time "@,
            "sudo "@,
            "env "@,
            "nice "@,
            "do "@,
        ],
        forall|j: int| 0 <= j < table.len() ==> !text::begins(s, #[trigger] table[j]),
    ensures
        without_wrappers(s, wrappers().len() as int) == s,
{
    assert(wrappers() =~= table);
    lemma_untouched(s, table.len() as int);
}

proof fn lemma_untouched(s: Seq<char>, n: int)
    requires
        0 <= n <= wrappers().len(),
        forall|j: int| 0 <= j < n ==> !text::begins(s, #[trigger] wrappers()[j]),
    ensures
        without_wrappers(s, n) == s,
    decreases n,
{
    if n > 0 {
        lemma_untouched(s, n - 1);
        assert(!text::begins(s, wrappers()[n - 1]));
    }
}

proof fn lemma_untouched_from(s: Seq<char>, t: Seq<char>, from: int, n: int)
    requires
        0 <= from <= n <= wrappers().len(),
        without_wrappers(s, from) == t,
        forall|j: int| 0 <= j < wrappers().len() ==> !text::begins(t, #[trigger] wrappers()[j]),
    ensures
        without_wrappers(s, n) == t,
    decreases n - from,
{
    if from < n {
        assert(!text::begins(t, wrappers()[from]));
        lemma_untouched_from(s, t, from + 1, n);
    }
}

/// A command loses the directory of its tool; with arguments behind it, one character of white
/// space before them becomes a space.
pub proof fn law_the_directory_of_a_tool_is_dropped(
    dir: Seq<char>,
    base: Seq<char>,
    gap: char,
    args: Seq<char>,
)
    requires
        dir.len() > 0,
        dir.last() == '/' || dir.last() == '\\',
        !text::begins(dir, seq!['.', '/']),
        forall|i: int| 0 <= i < dir.len() ==> !text::is_white(#[trigger] dir[i]),
        forall|i: int|
            0 <= i < base.len() ==> !text::is_white(#[trigger] base[i]) && base[i] != '/' && base[i]
                != '\\',
        text::is_white(gap),
    ensures
        without_directory(dir + base) == base,
        without_directory(dir + base + (seq![gap] + args)) == base + seq![' '] + args,
{
    lemma_directory(dir, base, Seq::empty());
    assert(dir + base + Seq::<char>::empty() =~= dir + base);
    lemma_directory(dir, base, seq![gap] + args);
    assert((seq![gap] + args).skip(1) =~= args);
}

proof fn lemma_directory(dir: Seq<char>, base: Seq<char>, tail: Seq<char>)
    requires
        dir.len() > 0,
        dir.last() == '/' || dir.last() == '\\',
        !text::begins(dir, seq!['.', '/']),
        forall|i: int| 0 <= i < dir.len() ==> !text::is_white(#[trigger] dir[i]),
        forall|i: int|
            0 <= i < base.len() ==> !text::is_white(#[trigger] base[i]) && base[i] != '/' && base[i]
                != '\\',
        tail.len() == 0 || text::is_white(tail[0]),
    ensures
        without_directory(dir + base + tail) == (if tail.len() == 0 {
            base
        } else {
            base + seq![' '] + tail.skip(1)
        }),
{
    reveal_strlit("./");
    reveal_strlit(" ");
    assert("./"@ =~= seq!['.', '/']);
    assert(" "@ =~= seq![' ']);
    let s = dir + base + tail;
    let head = dir + base;
    if text::begins(s, "./"@) {
        assert(s.subrange(0, 2) == seq!['.', '/']);
        assert(s[0] == s.subrange(0, 2)[0] && s[1] == s.subrange(0, 2)[1]);
        assert(s[0] == dir[0]);
        if dir.len() == 1 {
            assert(false);
        }
        assert(s[1] == dir[1]);
        assert(dir.subrange(0, 2) =~= seq!['.', '/']);
    }
    text::lemma_word_end(s);
    let n = text::word_end(s);
    if n < head.len() {
        assert(text::is_white(s[n]));
        if n < dir.len() {
            assert(s[n] == dir[n]);
        } else {
            assert(s[n] == base[n - dir.len()]);
        }
    }
    if n > head.len() {
        assert(s[head.len() as int] == tail[0]);
    }
    assert(s.take(n) =~= head);
    let k = dir.len() - 1;
    assert(head[k] == dir.last());
    assert(head.contains(head[k]));
    lemma_behind_separator(dir, base);
    if tail.len() > 0 {
        assert(s.skip(n + 1) =~= tail.skip(1));
    }
}

proof fn lemma_behind_separator(dir: Seq<char>, base: Seq<char>)
    requires
        dir.len() > 0,
        dir.last() == '/' || dir.last() == '\\',
        forall|i: int| 0 <= i < base.len() ==> #[trigger] base[i] != '/' && base[i] != '\\',
    ensures
        text::after_last(dir + base, text::among("/\\"@)) == base,
    decreases base.len(),
{
    reveal_strlit("/\\");
    let set = "/\\"@;
    assert(set[0] == '/' && set[1] == '\\');
    let p = text::among(set);
    let s = dir + base;
    if base.len() == 0 {
        assert(s =~= dir);
        if dir.last() == '/' {
            assert(set.contains(set[0]));
        } else {
            assert(set.contains(set[1]));
        }
        assert(p(s.last()));
        assert(text::after_last(s, p) =~= base);
    } else {
        let less = base.drop_last();
        lemma_behind_separator(dir, less);
        assert(s.drop_last() =~= dir + less);
        assert(s.last() == base.last());
        assert(!p(s.last())) by {
            if set.contains(s.last()) {
                let i = choose|i: int| 0 <= i < set.len() && set[i] == s.last();
                assert(i == 0 || i == 1);
            }
        }
        assert(less.push(base.last()) =~= base);
    }
}

/// A tool without a directory keeps its command as it is.
pub proof fn law_a_bare_tool_keeps_its_command(tool: Seq<char>, tail: Seq<char>)
    requires
        forall|i: int|
            0 <= i < tool.len() ==> !text::is_white(#[trigger] tool[i]) && tool[i] != '/' && tool[i]
                != '\\',
        tail.len() == 0 || text::is_white(tail[0]),
    ensures
        without_directory(tool + tail) == tool + tail,
{
    reveal_strlit("./");
    let s = tool + tail;
    if text::begins(s, "./"@) {
        assert(s.subrange(0, 2) == "./"@);
        assert(s[1] == s.subrange(0, 2)[1]);
        assert(s[0] == s.subrange(0, 2)[0]);
        if tool.len() > 1 {
            assert(s[1] == tool[1]);
        } else if tool.len() == 1 {
            assert(s[1] == tail[0]);
        } else {
            assert(s[0] == tail[0]);
        }
    }
    text::lemma_word_end(s);
    let n = text::word_end(s);
    if n > tool.len() {
        assert(s[tool.len() as int] == tail[0]);
    }
    let head = s.take(n);
    if is_path(head) {
        let i = choose|i: int| 0 <= i < head.len() && (head[i] == '/' || head[i] == '\\');
        assert(head[i] == tool[i]);
    }
}

/// A round of stripping drops the directory, then the wrappers, then a time limit, then the
/// interpreter of a module; rounds go on while they shorten the command.
pub proof fn law_a_round_of_stripping(s: Seq<char>)
    ensures
        ({
            let behind = |p: Seq<char>, t: Seq<char>|
                match pattern::regex_find(p, t) {
                    Some(f) => text::front_trimmed(f.2, text::whites()),
                    None => t,
                };
            let unwrapped = without_wrappers(without_directory(s), wrappers().len() as int);
            let once = behind(
                r"^(?:python[0-9.]*|py|pypy[0-9.]*)\s+-m\s+"@,
                behind(r"^timeout\s+(?:-[-\w=]+\s+)*[\d.]+[smhd]?\s+"@, unwrapped),
            );
            stripped(s) == (if once.len() < s.len() {
                stripped(once)
            } else {
                once
            })
        }),
{
}

/// What an `echo` prints, where that is plain text of at least three bytes: without the quotes
/// round it, and not where a variable, a command or a flag is involved.
pub proof fn law_what_an_echo_prints(rest: Seq<char>)
    requires
        text::trimmed("echo "@ + rest) == "echo "@ + rest,
    ensures
        ({
            let t = text::trimmed(rest);
            let plain = text::trimmed(text::trimmed_of(t, "\"'"@));
            echoed("echo "@ + rest) == (if t.contains('$') || t.contains('`') || text::begins(
                t,
                "-"@,
            ) || text::byte_len_of(plain) < 3 {
                None
            } else {
                Some(plain)
            })
        }),
{
    reveal_strlit("echo ");
    let s = "echo "@ + rest;
    assert(s.subrange(0, 5) =~= "echo "@);
    assert(s.skip(5) =~= rest);
}

/// A step that does not begin with `echo ` prints no landmark.
pub proof fn law_other_steps_print_no_landmark(segment: Seq<char>)
    requires
        !text::begins(text::trimmed(segment), "echo "@),
    ensures
        echoed(segment) is None,
{
}

/// A single landmark divides the output: the steps before it printed what stands before it, the
/// steps behind it what stands behind it, and each stretch is known to be theirs.
pub proof fn law_a_landmark_divides_the_output(
    segments: Seq<Seq<char>>,
    output: Seq<char>,
    k: int,
    at: int,
    i: int,
)
    requires
        0 <= k < segments.len(),
        0 <= i < segments.len(),
        i != k,
        forall|j: int|
            0 <= j < segments.len() && j != k ==> echoed(#[trigger] segments[j]) is None,
        echoed(segments[k]) is Some,
        text::occurs_at(output, echoed(segments[k])->0, at),
        forall|j: int| 0 <= j < at ==> !text::occurs_at(output, echoed(segments[k])->0, j),
    ensures
        ({
            let r = regions_of(segments, output)[i];
            &&& r.exclusive
            &&& i < k ==> r.text == output.take(at)
            &&& i > k ==> r.text == output.skip(at + echoed(segments[k])->0.len())
        }),
{
    let lit = echoed(segments[k])->0;
    let n = segments.len() as int;
    text::lemma_first_at(output, lit, 0);
    assert(text::first_at(output, lit, 0) == Some(at)) by {
        match text::first_at(output, lit, 0) {
            Some(x) => {
                if x < at {
                    assert(!text::occurs_at(output, lit, x));
                }
                if at < x {
                    assert(!text::occurs_at(output, lit, at));
                }
            },
            None => {
                assert(!text::occurs_at(output, lit, at));
            },
        }
    }
    lemma_one_mark(segments, output, k, at, n);
    let marks = marks_upto(segments, output, n).0;
    let mark = (at, at + lit.len());
    if i < k {
        lemma_no_mark_before(marks, i);
        lemma_only_mark_after(marks, i + 1, k, mark);
        assert(output.subrange(0, at) =~= output.take(at));
        if at == 0 {
            assert(output.take(at) =~= Seq::empty());
        }
    } else {
        lemma_only_mark_before(marks, i, k, mark);
        lemma_no_mark_after(marks, i + 1);
        let end = at + lit.len();
        assert(output.subrange(end, output.len() as int) =~= output.skip(end));
        if end >= output.len() {
            assert(output.skip(end) =~= Seq::empty());
        }
    }
}

/// Without a landmark in the output, each of several steps is taken to have printed all of it, and
/// none of it is known to be its own.
pub proof fn law_without_a_landmark_the_output_is_shared(
    segments: Seq<Seq<char>>,
    output: Seq<char>,
    i: int,
)
    requires
        segments.len() > 1,
        0 <= i < segments.len(),
        forall|j: int|
            0 <= j < segments.len() ==> (echoed(#[trigger] segments[j]) matches Some(lit)
                ==> !text::has(output, lit)),
    ensures
        regions_of(segments, output)[i].text == output,
        !regions_of(segments, output)[i].exclusive,
{
    let n = segments.len() as int;
    lemma_no_marks(segments, output, n);
    let marks = marks_upto(segments, output, n).0;
    lemma_no_mark_before(marks, i);
    lemma_no_mark_after(marks, i + 1);
    assert(output.subrange(0, output.len() as int) =~= output);
    if output.len() == 0 {
        assert(output =~= Seq::empty());
    }
}

proof fn lemma_no_marks(segments: Seq<Seq<char>>, output: Seq<char>, n: int)
    requires
        0 <= n <= segments.len(),
        forall|j: int|
            0 <= j < segments.len() ==> (echoed(#[trigger] segments[j]) matches Some(lit)
                ==> !text::has(output, lit)),
    ensures
        marks_upto(segments, output, n).0.len() == n,
        marks_upto(segments, output, n).1 == 0,
        forall|j: int| 0 <= j < n ==> (#[trigger] marks_upto(segments, output, n).0[j]) is None,
    decreases n,
{
    if n > 0 {
        lemma_no_marks(segments, output, n - 1);
        if let Some(lit) = echoed(segments[n - 1]) {
            text::lemma_first_at(output, lit, 0);
            assert(!text::has(output, lit));
            if let Some(x) = text::first_at(output, lit, 0) {
                assert(text::occurs_at(output, lit, x));
            }
        }
    }
}

proof fn lemma_one_mark(segments: Seq<Seq<char>>, output: Seq<char>, k: int, at: int, n: int)
    requires
        0 <= k < segments.len(),
        0 <= n <= segments.len(),
        forall|j: int|
            0 <= j < segments.len() && j != k ==> echoed(#[trigger] segments[j]) is None,
        echoed(segments[k]) is Some,
        text::first_at(output, echoed(segments[k])->0, 0) == Some(at),
    ensures
        marks_upto(segments, output, n).0.len() == n,
        n <= k ==> marks_upto(segments, output, n).1 == 0,
        forall|j: int|
            0 <= j < n && j != k ==> (#[trigger] marks_upto(segments, output, n).0[j]) is None,
        k < n ==> marks_upto(segments, output, n).0[k] == Some(
            (at, at + echoed(segments[k])->0.len()),
        ),
    decreases n,
{
    if n > 0 {
        lemma_one_mark(segments, output, k, at, n - 1);
        if n - 1 != k {
            assert(echoed(segments[n - 1]) is None);
        }
    }
}

proof fn lemma_no_mark_before(marks: Seq<Option<(int, int)>>, n: int)
    requires
        0 <= n <= marks.len(),
        forall|j: int| 0 <= j < n ==> (#[trigger] marks[j]) is None,
    ensures
        mark_before(marks, n) is None,
    decreases n,
{
    if n > 0 {
        assert(marks[n - 1] is None);
        lemma_no_mark_before(marks, n - 1);
    }
}

proof fn lemma_no_mark_after(marks: Seq<Option<(int, int)>>, n: int)
    requires
        0 <= n <= marks.len(),
        forall|j: int| n <= j < marks.len() ==> (#[trigger] marks[j]) is None,
    ensures
        mark_after(marks, n) is None,
    decreases marks.len() - n,
{
    if n < marks.len() {
        assert(marks[n] is None);
        lemma_no_mark_after(marks, n + 1);
    }
}

proof fn lemma_only_mark_before(marks: Seq<Option<(int, int)>>, n: int, k: int, m: (int, int))
    requires
        0 <= k < n <= marks.len(),
        marks[k] == Some(m),
        forall|j: int| k < j < n ==> (#[trigger] marks[j]) is None,
    ensures
        mark_before(marks, n) == Some(m),
    decreases n,
{
    if n - 1 > k {
        assert(marks[n - 1] is None);
        lemma_only_mark_before(marks, n - 1, k, m);
    }
}

proof fn lemma_only_mark_after(marks: Seq<Option<(int, int)>>, n: int, k: int, m: (int, int))
    requires
        0 <= n <= k < marks.len(),
        marks[k] == Some(m),
        forall|j: int| n <= j < k ==> (#[trigger] marks[j]) is None,
    ensures
        mark_after(marks, n) == Some(m),
    decreases k - n,
{
    if n < k {
        assert(marks[n] is None);
        lemma_only_mark_after(marks, n + 1, k, m);
    }
}

} // verus!
