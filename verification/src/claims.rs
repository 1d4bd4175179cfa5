//! Extracting checkable claims from assistant prose.
//!
//! Only statements of completed fact are claims. Intentions ("let me run the tests"), questions,
//! and conditionals ("if the tests pass") are not, and matching them would flood the report with
//! noise. Every pattern here is therefore paired with a guard that rejects the hedged forms.

use vstd::prelude::*;

use crate::lists;
use crate::pattern;
use crate::pattern::Pattern;
use crate::text;
use crate::transcript::{AssistantTextModel, Transcript};

verus! {

#[derive(Debug, Clone, Copy, PartialEq, Eq, Structural)]
pub enum ClaimKind {
    TestsPass,
    /// "all checks pass": a blanket claim naming no particular tool.
    ChecksPass,
    TypeCheckPasses,
    LintPasses,
    BuildPasses,
    Committed,
    Pushed,
    FileWritten,
}

impl DeepView for ClaimKind {
    type V = ClaimKind;

    open spec fn deep_view(&self) -> ClaimKind {
        *self
    }
}

/// A kind of claim in words.
pub open spec fn claim_label(kind: ClaimKind) -> Seq<char> {
    match kind {
        ClaimKind::TestsPass => "tests pass"@,
        ClaimKind::ChecksPass => "checks pass"@,
        ClaimKind::TypeCheckPasses => "type check passes"@,
        ClaimKind::LintPasses => "lint passes"@,
        ClaimKind::BuildPasses => "build succeeds"@,
        ClaimKind::Committed => "changes committed"@,
        ClaimKind::Pushed => "changes pushed"@,
        ClaimKind::FileWritten => "file written"@,
    }
}

impl ClaimKind {
    pub fn label(&self) -> (r: &'static str)
        ensures
            r@ == claim_label(*self),
    {
        match self {
            ClaimKind::TestsPass => "tests pass",
            ClaimKind::ChecksPass => "checks pass",
            ClaimKind::TypeCheckPasses => "type check passes",
            ClaimKind::LintPasses => "lint passes",
            ClaimKind::BuildPasses => "build succeeds",
            ClaimKind::Committed => "changes committed",
            ClaimKind::Pushed => "changes pushed",
            ClaimKind::FileWritten => "file written",
        }
    }
}

#[derive(Debug)]
pub struct Claim {
    pub kind: ClaimKind,
    /// Position in the transcript, for ordering against evidence.
    pub seq: usize,
    /// The sentence the claim was made in, trimmed for display.
    pub quote: String,
    /// True when made in the final message -- the summary the user is most likely to trust.
    pub in_summary: bool,
    /// For [`ClaimKind::FileWritten`], the path mentioned.
    pub subject: Option<String>,
}

/// What a [`Claim`] stands for.
#[verifier::ext_equal]
pub struct ClaimModel {
    pub kind: ClaimKind,
    pub seq: usize,
    pub quote: Seq<char>,
    pub in_summary: bool,
    pub subject: Option<Seq<char>>,
}

impl DeepView for Claim {
    type V = ClaimModel;

    open spec fn deep_view(&self) -> ClaimModel {
        ClaimModel {
            kind: self.kind,
            seq: self.seq,
            quote: self.quote@,
            in_summary: self.in_summary,
            subject: self.subject.deep_view(),
        }
    }
}

impl Clone for Claim {
    fn clone(&self) -> (r: Self)
        ensures
            r.deep_view() == self.deep_view(),
    {
        let subject = text::copied(&self.subject);
        Claim {
            kind: self.kind,
            seq: self.seq,
            quote: self.quote.clone(),
            in_summary: self.in_summary,
            subject,
        }
    }
}

// ---------------------------------------------------------------- the expressions

/// An intention, a request or a hypothetical.
pub const HEDGE: &'static str =
    r"(?i)\b(let me|i'?ll|i will|going to|next,? i|should i|shall i|can you|could you|need to|want to|planning to|about to|if |once |after |when |unless |until |make sure|ensure|verify that|check (?:that|whether|if)|to confirm|hopefully|assuming|in order to|so that|which (?:should|would)|would (?:be|make)|please )";

/// An account of what some other thing did.
pub const DESCRIPTION: &'static str =
    r"(?i)\b(on every (?:single )?run|every single run|each run|each time|every time|used to|previously|historically|in the past|before this|which (?:did|does|was|were|had|has)|the (?:culprit|cause|reason|channel) )";

/// "pushed the last item over" is a figure of speech, not a `git push`.
pub const METAPHOR: &'static str =
    r"(?i)\bpush(?:ed|es|ing)?\b[^.]{0,60}\b(over|past|beyond|across|through|into place|off|aside|back|down|up|onto|out of view|below the fold|to the (?:right|left)|out of|further)\b";

/// Negative words with a positive meaning.
pub const POSITIVE_NEGATIVES: &'static str =
    r"(?i)\bno\s+(?:errors?|issues?|warnings?|failures?|problems?|regressions?|complaints?)\b|\bwithout\s+(?:errors?|issues?|warnings?|failures?|problems?)\b|\bzero\s+(?:errors?|issues?|failures?|warnings?)\b|\bno\s+longer\s+fail";

/// Negative words.
pub const NEGATION: &'static str =
    r"(?i)\b(do(?:es)?n'?t|did\s+not|didn'?t|is\s?n'?t|are\s?n'?t|was\s?n'?t|were\s?n'?t|not|no|nowhere|none|never|fail(?:s|ed|ing|ure|ures)?|broken|breaks?|error(?:s)?|cannot|can'?t|couldn'?t|unable|still|pending|remains?)\b";

/// An inline code span.
pub const CODE_SPAN: &'static str = r"`[^`]*`";

/// "all tests pass", "the test suite is green", "tests passing", "42 tests pass". "green" is only
/// a verdict next to the thing it describes: a paper award called "Test of Time" rendered with a
/// "green gradient banner" is not a passing suite.
pub const TESTS: &'static str =
    r"(?i)\b(?:all |the |\d+ )*tests?(?: suite)?\b[^.]{0,30}\b(pass(?:es|ed|ing)?|succeed(?:s|ed)?)\b|\b(?:tests?|test suite|suite|build|ci)\b\s*(?:is|are|all|now|still|were)?\s*green\b|\ball green\b";

/// Vague on purpose: "checks" may mean tests, lint, types, CI or all of them, so this is verified
/// against whatever ran rather than against one tool.
pub const CHECKS: &'static str =
    r"(?i)\ball (?:the )?checks?\b[^.]{0,20}\bpass(?:es|ed|ing)?\b|\beverything (?:is |was )?green\b|\ball green\b";

pub const TYPES: &'static str =
    r"(?i)\b(mypy|pyright|tsc|type[ -]?check(?:s|ing)?|types?)\b[^.]{0,30}\b(pass(?:es|ed|ing)?|clean|clear|happy|no (?:errors|issues))\b";

pub const LINT: &'static str =
    r"(?i)\b(lint(?:er|ing)?|ruff|eslint|clippy|flake8)\b[^.]{0,30}\b(pass(?:es|ed|ing)?|clean|clear|happy|no (?:errors|issues|warnings))\b";

pub const BUILD: &'static str =
    r"(?i)\b(build|compil(?:es|ed|ation))\b[^.]{0,25}\b(succe(?:eds|eded|ssful)|pass(?:es|ed)?|clean(?:ly)?|works?|fine)\b";

pub const COMMIT: &'static str =
    r"(?i)\b(i(?:'ve| have)? committed|committed (?:the|these|all|it|them|everything)|(?:changes|work|fix|it) (?:is|are|were|has been|have been) committed|created (?:a|the) commit|commit(?:ted)? (?:and pushed|locally))\b";

pub const PUSH: &'static str =
    r"(?i)\b(i(?:'ve| have)? pushed|pushed (?:the|these|all|it|them|to)|(?:changes|work|branch|commits?) (?:is|are|were|has been|have been) pushed)\b";

/// A path mentioned as having been created or written.
pub const FILE: &'static str =
    r"(?i)\b(?:created|added|wrote|written|updated|modified)\b[^.]{0,60}?\b([\w./-]+\.[a-z]{1,6})\b";

/// The kinds of claims that an expression tells, in the order in which they are reported.
pub open spec fn claim_patterns() -> Seq<(ClaimKind, Seq<char>)> {
    seq![
        (ClaimKind::TestsPass, TESTS@),
        (ClaimKind::ChecksPass, CHECKS@),
        (ClaimKind::TypeCheckPasses, TYPES@),
        (ClaimKind::LintPasses, LINT@),
        (ClaimKind::BuildPasses, BUILD@),
        (ClaimKind::Committed, COMMIT@),
        (ClaimKind::Pushed, PUSH@),
    ]
}

/// The expressions of this module, compiled once for a whole transcript.
struct Matchers {
    hedge: Pattern,
    description: Pattern,
    metaphor: Pattern,
    positive_negatives: Pattern,
    negation: Pattern,
    code_span: Pattern,
    file: Pattern,
    kinds: Vec<(ClaimKind, Pattern)>,
}

impl Matchers {
    spec fn ready(&self) -> bool {
        &&& self.hedge@ == HEDGE@
        &&& self.description@ == DESCRIPTION@
        &&& self.metaphor@ == METAPHOR@
        &&& self.positive_negatives@ == POSITIVE_NEGATIVES@
        &&& self.negation@ == NEGATION@
        &&& self.code_span@ == CODE_SPAN@
        &&& self.file@ == FILE@
        &&& self.kinds@.len() == claim_patterns().len()
        &&& forall|i: int|
            0 <= i < self.kinds@.len() ==> (#[trigger] self.kinds@[i]).0 == claim_patterns()[i].0
                && self.kinds@[i].1@ == claim_patterns()[i].1
    }

    fn all_patterns() -> (m: Matchers)
        ensures
            m.ready(),
    {
        let mut kinds: Vec<(ClaimKind, Pattern)> = Vec::new();
        kinds.push((ClaimKind::TestsPass, Pattern::new(TESTS)));
        kinds.push((ClaimKind::ChecksPass, Pattern::new(CHECKS)));
        kinds.push((ClaimKind::TypeCheckPasses, Pattern::new(TYPES)));
        kinds.push((ClaimKind::LintPasses, Pattern::new(LINT)));
        kinds.push((ClaimKind::BuildPasses, Pattern::new(BUILD)));
        kinds.push((ClaimKind::Committed, Pattern::new(COMMIT)));
        kinds.push((ClaimKind::Pushed, Pattern::new(PUSH)));
        Matchers {
            hedge: Pattern::new(HEDGE),
            description: Pattern::new(DESCRIPTION),
            metaphor: Pattern::new(METAPHOR),
            positive_negatives: Pattern::new(POSITIVE_NEGATIVES),
            negation: Pattern::new(NEGATION),
            code_span: Pattern::new(CODE_SPAN),
            file: Pattern::new(FILE),
            kinds,
        }
    }
}

// ---------------------------------------------------------------- sentences

/// A line of prose without inline code spans and emphasis markers.
pub open spec fn unmarked(line: Seq<char>) -> Seq<char> {
    text::without(
        text::without(pattern::regex_replaced(CODE_SPAN@, line, " "@), "**"@),
        "__"@,
    )
}

/// A sentence ends at position `i`: there is a full stop, followed by white space or nothing.
pub open spec fn stops_at(s: Seq<char>, i: int) -> bool {
    &&& 0 <= i < s.len()
    &&& s[i] == '.' || s[i] == '!' || s[i] == '。'
    &&& i + 1 >= s.len() || text::is_white(s[i + 1])
}

/// The sentences of a line from position `i` on, `cur` being the one that is being read. One of
/// up to eight bytes does not stand by itself.
pub open spec fn sentences_from(s: Seq<char>, i: int, cur: Seq<char>) -> Seq<Seq<char>>
    decreases s.len() - i,
{
    if i < 0 || i >= s.len() {
        if text::trimmed(cur).len() == 0 {
            Seq::empty()
        } else {
            seq![cur]
        }
    } else {
        let longer = cur.push(s[i]);
        if stops_at(s, i) && text::byte_len_of(text::trimmed(longer)) > 8 {
            seq![longer] + sentences_from(s, i + 1, Seq::empty())
        } else {
            sentences_from(s, i + 1, longer)
        }
    }
}

/// The line opens or closes a fenced block.
pub open spec fn is_fence(line: Seq<char>) -> bool {
    text::begins(text::trimmed(line), "```"@) || text::begins(text::trimmed(line), "~~~"@)
}

/// The line is quoted output rather than prose, by its indentation.
pub open spec fn is_indented(line: Seq<char>) -> bool {
    text::begins(line, "    "@) || text::begins(line, "\t"@)
}

/// The line says something outside a fence.
pub open spec fn is_prose(line: Seq<char>) -> bool {
    !is_fence(line) && text::trimmed(line).len() > 0 && !is_indented(line)
}

/// The first `n` lines end within a fenced block.
pub open spec fn fenced_after(lines: Seq<Seq<char>>, n: int) -> bool
    decreases n,
{
    if n <= 0 {
        false
    } else if is_fence(lines[n - 1]) {
        !fenced_after(lines, n - 1)
    } else {
        fenced_after(lines, n - 1)
    }
}

/// The sentences of line `i`.
pub open spec fn line_sentences(lines: Seq<Seq<char>>, i: int) -> Seq<Seq<char>> {
    if is_prose(lines[i]) && !fenced_after(lines, i) {
        sentences_from(unmarked(text::trimmed(lines[i])), 0, Seq::empty())
    } else {
        Seq::empty()
    }
}

/// The sentences of the first `n` lines, as they are written.
pub open spec fn sentences_upto(lines: Seq<Seq<char>>, n: int) -> Seq<Seq<char>>
    decreases n,
{
    if n <= 0 {
        Seq::empty()
    } else {
        sentences_upto(lines, n - 1) + line_sentences(lines, n - 1)
    }
}

/// A sentence without the bullets and heading marks before it, where anything is left.
pub open spec fn bare_sentence(s: Seq<char>) -> Option<Seq<char>> {
    let t = text::front_trimmed(text::trimmed(s), text::among("-*# "@));
    if t.len() == 0 {
        None
    } else {
        Some(t)
    }
}

/// The sentences of a text.
pub open spec fn sentences_of(s: Seq<char>) -> Seq<Seq<char>> {
    let lines = text::lines_of(s);
    lists::selected(
        sentences_upto(lines, lines.len() as int),
        |x: Seq<char>| bare_sentence(x),
    )
}

/// Split a line of prose into sentences.
///
/// Splitting happens only at a full stop that is followed by whitespace or the end of the line,
/// so paths and version numbers (`src/parser.rs`, `v1.2.3`) survive intact -- they are frequently
/// the subject of the very claims being extracted.
pub fn split_line(line: &str) -> (r: Vec<String>)
    ensures
        r.deep_view() == sentences_from(line@, 0, Seq::empty()),
{
    let cs = text::chars_of(line);
    let mut out: Vec<String> = Vec::new();
    let mut cur = String::new();
    let mut i: usize = 0;
    let ghost all = sentences_from(line@, 0, Seq::empty());
    assert(cur@ =~= Seq::empty());
    assert(out.deep_view() + all =~= all);
    while i < cs.len()
        invariant
            cs@ == line@,
            i <= cs.len(),
            out.deep_view() + sentences_from(line@, i as int, cur@) == all,
        decreases cs.len() - i,
    {
        let ghost before = out.deep_view();
        let ghost rest = sentences_from(line@, i as int, cur@);
        let c = cs[i];
        cur.push(c);
        let stops = (c == '.' || c == '!' || c == '。') && (i + 1 >= cs.len() || text::white(
            cs[i + 1],
        ));
        let t = text::trim(cur.as_str());
        if stops && text::byte_len(t.as_str()) > 8 {
            let ghost said = cur@;
            out.push(cur);
            cur = String::new();
            assert(cur@ =~= Seq::empty());
            assert(out.deep_view() =~= before.push(said));
            assert(before + rest =~= out.deep_view() + sentences_from(line@, i + 1, cur@));
        }
        i = i + 1;
    }
    let ghost before = out.deep_view();
    if !text::is_blank(cur.as_str()) {
        out.push(cur);
        assert(out.deep_view() =~= before.push(cur@));
    }
    assert(out.deep_view() =~= all);
    out
}

/// The sentences without the bullets and heading marks before them.
pub fn strip_bullets(said: &Vec<String>) -> (r: Vec<String>)
    ensures
        r.deep_view() == lists::selected(said.deep_view(), |x: Seq<char>| bare_sentence(x)),
{
    let ghost all = said.deep_view();
    let ghost f = |x: Seq<char>| bare_sentence(x);
    let mut out: Vec<String> = Vec::new();
    assert(out.deep_view() =~= Seq::empty());
    for i in 0..said.len()
        invariant
            all == said.deep_view(),
            f == (|x: Seq<char>| bare_sentence(x)),
            out.deep_view() == lists::selected(all.take(i as int), f),
    {
        let ghost before = out.deep_view();
        proof {
            lists::lemma_selected_step(all, f, i as int);
            assert(all[i as int] == said@[i as int]@);
        }
        let t = text::trim(said[i].as_str());
        let bare = text::trim_start_of(t.as_str(), "-*# ");
        if !bare.as_str().is_empty() {
            out.push(bare);
            assert(out.deep_view() =~= before.push(bare@));
        }
    }
    assert(all.take(all.len() as int) =~= all);
    out
}

impl Matchers {
    /// Remove inline code spans and emphasis markers from a line of prose.
    ///
    /// A sentence *about* checking, quoting `> tsc -b` or **bold** fragments of output, is
    /// discussion rather than a claim, and the markup is what made it read like one.
    fn strip_markup(&self, line: &str) -> (r: String)
        requires
            self.ready(),
        ensures
            r@ == unmarked(line@),
    {
        let without_code = self.code_span.replace_all(line, " ");
        proof {
            reveal_strlit("**");
            reveal_strlit("__");
        }
        let plain = text::remove_all(without_code.as_str(), "**");
        text::remove_all(plain.as_str(), "__")
    }

    /// Split prose into sentences.
    fn sentences(&self, prose: &str) -> (r: Vec<String>)
        requires
            self.ready(),
        ensures
            r.deep_view() == sentences_of(prose@),
    {
        let lines = text::lines(prose);
        let ghost all = text::lines_of(prose@);
        let mut said: Vec<String> = Vec::new();
        let mut in_fence = false;
        assert(said.deep_view() =~= Seq::empty());
        for i in 0..lines.len()
            invariant
                self.ready(),
                all == lines.deep_view(),
                in_fence == fenced_after(all, i as int),
                said.deep_view() == sentences_upto(all, i as int),
        {
            let ghost before = said.deep_view();
            let line = lines[i].as_str();
            assert(all[i as int] == line@);
            let trimmed = text::trim(line);
            // Fenced blocks quote command output; a claim only counts when the agent asserts it.
            let fence = text::starts_with(trimmed.as_str(), "```") || text::starts_with(
                trimmed.as_str(),
                "~~~",
            );
            // An indented block is also quoted output rather than prose.
            let indented = text::starts_with(line, "    ") || text::starts_with(line, "\t");
            if !fence && !trimmed.as_str().is_empty() && !indented && !in_fence {
                let plain = self.strip_markup(trimmed.as_str());
                let mut found = split_line(plain.as_str());
                let ghost new = found.deep_view();
                said.append(&mut found);
                assert(said.deep_view() =~= before + new);
            } else {
                assert(before + line_sentences(all, i as int) =~= before);
            }
            if fence {
                in_fence = !in_fence;
            }
        }
        strip_bullets(&said)
    }
}

// ---------------------------------------------------------------- what a sentence is worth

/// Sentences that describe an intention, a question, a hypothetical, or something else make no
/// claim.
pub open spec fn hedged(s: Seq<char>) -> bool {
    ||| pattern::regex_is_match(HEDGE@, s)
    ||| text::ends(text::back_trimmed(s, text::whites()), "?"@)
    ||| pattern::regex_is_match(DESCRIPTION@, s)
    ||| pattern::regex_is_match(METAPHOR@, s)
}

/// Sentences that assert the opposite are not positive claims.
pub open spec fn negated(s: Seq<char>) -> bool {
    pattern::regex_is_match(
        NEGATION@,
        pattern::regex_replaced(POSITIVE_NEGATIVES@, s, " "@),
    )
}

/// The kinds of claims that a sentence makes.
pub open spec fn kinds_in(s: Seq<char>) -> Seq<ClaimKind> {
    lists::selected(
        claim_patterns(),
        |p: (ClaimKind, Seq<char>)|
            if pattern::regex_is_match(p.1, s) {
                Some(p.0)
            } else {
                None
            },
    )
}

/// Domain suffixes that make a token a web address rather than a file.
pub open spec fn tlds() -> Seq<Seq<char>> {
    seq![
        "com"@,
        "org"@,
        "net"@,
        "io"@,
        "dev"@,
        "ai"@,
        "co"@,
        "sh"@,
        "me"@,
        "app"@,
        "gov"@,
        "edu"@,
        "uk"@,
        "ca"@,
        "html"@,
    ]
}

/// The path ends like a web address.
pub open spec fn ends_like_address(path: Seq<char>) -> bool {
    tlds().contains(text::lowered(text::after_last(path, text::among("."@))))
}

/// The sentence holds a web address.
pub open spec fn has_url(s: Seq<char>) -> bool {
    text::has(s, "://"@) || text::has(s, "www."@)
}

/// A token of the sentence names a file. A bare `example.com` is an address; `docs/index.html` is
/// a file. Inside a sentence containing a URL, a slashed token is most likely part of it.
pub open spec fn names_file(path: Seq<char>, s: Seq<char>) -> bool {
    &&& !text::begins(path, "e.g"@)
    &&& path.contains('.')
    &&& !(ends_like_address(path) && !path.contains('/'))
    &&& !(has_url(s) && text::has(s, "/"@ + path) && ends_like_address(path))
}

/// The file that a match in the sentence names.
pub open spec fn file_in(groups: Seq<Option<Seq<char>>>, s: Seq<char>) -> Option<Seq<char>> {
    let path = pattern::group_of(groups, 1);
    if names_file(path, s) {
        Some(path)
    } else {
        None
    }
}

/// The files that the matches in the sentence name.
pub open spec fn files_in(found: Seq<Seq<Option<Seq<char>>>>, s: Seq<char>) -> Seq<Seq<char>> {
    lists::selected(found, |g: Seq<Option<Seq<char>>>| file_in(g, s))
}

fn is_tld(ext: &str) -> (r: bool)
    ensures
        r == tlds().contains(ext@),
{
    let all: [&str; 15] = [
        "com",
        "org",
        "net",
        "io",
        "dev",
        "ai",
        "co",
        "sh",
        "me",
        "app",
        "gov",
        "edu",
        "uk",
        "ca",
        "html",
    ];
    assert(all.deep_view() =~= tlds());
    for i in 0..15usize
        invariant
            all.deep_view() == tlds(),
            tlds().len() == 15,
            forall|k: int| 0 <= k < i ==> #[trigger] tlds()[k] != ext@,
    {
        assert(all.deep_view()[i as int] == all@[i as int]@);
        if text::same(ext, all[i]) {
            assert(tlds()[i as int] == ext@);
            return true;
        }
    }
    false
}

/// Does a token of the sentence name a file?
///
/// URLs are the main source of false matches here -- "PR created: https://github.com/..." parses
/// as a claim to have written a file called `github.com` -- so anything that looks like an address
/// is discarded.
pub fn is_file_name(path: &str, sentence: &str) -> (r: bool)
    ensures
        r == names_file(path@, sentence@),
{
    if text::starts_with(path, "e.g") || !text::contains_char(path, '.') {
        return false;
    }
    let last = text::after_last_of(path, ".");
    let ext = text::lowercase(last.as_str());
    let address = is_tld(ext.as_str());
    if address && !text::contains_char(path, '/') {
        return false;
    }
    let url = text::contains(sentence, "://") || text::contains(sentence, "www.");
    let mut slashed = "/".to_owned();
    slashed.append(path);
    if url && text::contains(sentence, slashed.as_str()) && address {
        return false;
    }
    true
}

/// The files that the matches in a sentence name.
pub fn files_among(found: &Vec<Vec<Option<String>>>, sentence: &str) -> (r: Vec<String>)
    ensures
        r.deep_view() == files_in(found.deep_view(), sentence@),
{
    let ghost all = found.deep_view();
    let ghost f = |g: Seq<Option<Seq<char>>>| file_in(g, sentence@);
    let mut out: Vec<String> = Vec::new();
    assert(out.deep_view() =~= Seq::empty());
    for i in 0..found.len()
        invariant
            all == found.deep_view(),
            f == (|g: Seq<Option<Seq<char>>>| file_in(g, sentence@)),
            out.deep_view() == lists::selected(all.take(i as int), f),
    {
        let ghost before = out.deep_view();
        proof {
            lists::lemma_selected_step(all, f, i as int);
            assert(all[i as int] == found@[i as int].deep_view());
        }
        let path = pattern::group(&found[i], 1);
        if is_file_name(path.as_str(), sentence) {
            out.push(path);
            assert(out.deep_view() =~= before.push(path@));
        }
    }
    assert(all.take(all.len() as int) =~= all);
    out
}

impl Matchers {
    /// Sentences that describe an intention, a question, or a hypothetical make no claim.
    fn is_hedged(&self, sentence: &str) -> (r: bool)
        requires
            self.ready(),
        ensures
            r == hedged(sentence@),
    {
        let t = text::trim_end(sentence);
        self.hedge.is_match(sentence) || text::ends_with(t.as_str(), "?")
            || self.describes_something_else(sentence)
    }

    /// Recounting what some other thing did is not a claim about this session's work.
    ///
    /// "The leak channel was `run.sh`, which did `git add` and pushed to `main` on every run"
    /// explains a bug; it does not assert that the agent pushed anything.
    fn describes_something_else(&self, sentence: &str) -> (r: bool)
        requires
            self.ready(),
        ensures
            r == (pattern::regex_is_match(DESCRIPTION@, sentence@) || pattern::regex_is_match(
                METAPHOR@,
                sentence@,
            )),
    {
        self.description.is_match(sentence) || self.metaphor.is_match(sentence)
    }

    /// Sentences that assert the opposite are not positive claims.
    ///
    /// A negative word does not always carry a negative meaning: "no warnings" and "without
    /// errors" are exactly the phrasings a successful run gets described in. Those are neutralised
    /// before the negation test runs, or every clean result would be discarded.
    fn is_negated(&self, sentence: &str) -> (r: bool)
        requires
            self.ready(),
        ensures
            r == negated(sentence@),
    {
        let cleaned = self.positive_negatives.replace_all(sentence, " ");
        self.negation.is_match(cleaned.as_str())
    }

    fn kinds_matched(&self, sentence: &str) -> (r: Vec<ClaimKind>)
        requires
            self.ready(),
        ensures
            r@ == kinds_in(sentence@),
    {
        let ghost all = claim_patterns();
        let ghost f = |p: (ClaimKind, Seq<char>)|
            if pattern::regex_is_match(p.1, sentence@) {
                Some(p.0)
            } else {
                None
            };
        let mut out: Vec<ClaimKind> = Vec::new();
        assert(out@ =~= Seq::empty());
        for i in 0..self.kinds.len()
            invariant
                self.ready(),
                all == claim_patterns(),
                f == (|p: (ClaimKind, Seq<char>)|
                    if pattern::regex_is_match(p.1, sentence@) {
                        Some(p.0)
                    } else {
                        None
                    }),
                out@ == lists::selected(all.take(i as int), f),
        {
            proof {
                lists::lemma_selected_step(all, f, i as int);
                assert(self.kinds@[i as int].0 == all[i as int].0);
            }
            if self.kinds[i].1.is_match(sentence) {
                out.push(self.kinds[i].0);
            }
        }
        assert(all.take(all.len() as int) =~= all);
        out
    }
}

// ---------------------------------------------------------------- claims

/// A quotation, cut to `max` characters.
pub open spec fn truncated(s: Seq<char>, max: nat) -> Seq<char> {
    let t = text::trimmed(s);
    if t.len() <= max {
        t
    } else {
        text::back_trimmed(t.take(max as int), text::whites()) + "…"@
    }
}

/// Cut a quotation to `max` characters.
pub fn truncate(s: &str, max: usize) -> (r: String)
    ensures
        r@ == truncated(s@, max as nat),
{
    let t = text::trim(s);
    let cs = text::chars_of(t.as_str());
    if cs.len() <= max {
        return t;
    }
    let cut = text::string_range(&cs, 0, max);
    assert(cut@ =~= t@.take(max as int));
    let mut out = text::trim_end(cut.as_str());
    out.append("…");
    out
}

/// What a sentence was found to say.
#[derive(Debug)]
pub struct SentenceReading {
    pub hedged: bool,
    pub negated: bool,
    /// The kinds of claims that its wording makes.
    pub kinds: Vec<ClaimKind>,
    /// The files that it names as written.
    pub files: Vec<String>,
}

/// The claim that a sentence makes by its wording.
pub open spec fn wording_claim(
    kind: ClaimKind,
    sentence: Seq<char>,
    seq: usize,
    in_summary: bool,
) -> ClaimModel {
    ClaimModel { kind, seq, quote: truncated(sentence, 160), in_summary, subject: None }
}

/// The claim that a sentence makes by naming a file.
pub open spec fn file_claim(
    path: Seq<char>,
    sentence: Seq<char>,
    seq: usize,
    in_summary: bool,
) -> ClaimModel {
    ClaimModel {
        kind: ClaimKind::FileWritten,
        seq,
        quote: truncated(sentence, 160),
        in_summary,
        subject: Some(path),
    }
}

/// The claims that a sentence makes, by what it was found to say. "tests don't pass yet" is an
/// honest report, not a claim to verify.
pub open spec fn claims_by(
    is_hedged: bool,
    is_negated: bool,
    kinds: Seq<ClaimKind>,
    files: Seq<Seq<char>>,
    sentence: Seq<char>,
    seq: usize,
    in_summary: bool,
) -> Seq<ClaimModel> {
    if is_hedged || is_negated {
        Seq::empty()
    } else {
        kinds.map_values(|k: ClaimKind| wording_claim(k, sentence, seq, in_summary))
            + files.map_values(|p: Seq<char>| file_claim(p, sentence, seq, in_summary))
    }
}

/// The claims that a sentence makes.
pub open spec fn sentence_claims(sentence: Seq<char>, seq: usize, in_summary: bool) -> Seq<
    ClaimModel,
> {
    claims_by(
        hedged(sentence),
        negated(sentence),
        kinds_in(sentence),
        files_in(pattern::regex_captures_all(FILE@, sentence), sentence),
        sentence,
        seq,
        in_summary,
    )
}

/// The claims of one message.
pub open spec fn message_claims(m: AssistantTextModel) -> Seq<ClaimModel> {
    lists::gathered(
        sentences_of(m.text),
        |s: Seq<char>| sentence_claims(s, m.seq, m.is_last),
    )
}

/// The claims of a session, in the order in which they were made.
pub open spec fn all_claims(texts: Seq<AssistantTextModel>) -> Seq<ClaimModel> {
    lists::gathered(texts, |m: AssistantTextModel| message_claims(m))
}

/// The claims that a sentence makes, by what it was found to say.
pub fn claims_in_sentence(
    reading: &SentenceReading,
    sentence: &str,
    seq: usize,
    in_summary: bool,
) -> (r: Vec<Claim>)
    ensures
        r.deep_view() == claims_by(
            reading.hedged,
            reading.negated,
            reading.kinds@,
            reading.files.deep_view(),
            sentence@,
            seq,
            in_summary,
        ),
{
    let mut out: Vec<Claim> = Vec::new();
    if reading.hedged || reading.negated {
        assert(out.deep_view() =~= Seq::empty());
        return out;
    }
    for i in 0..reading.kinds.len()
        invariant
            out@.len() == i,
            forall|k: int|
                0 <= k < i ==> (#[trigger] out@[k]).deep_view() == wording_claim(
                    reading.kinds@[k],
                    sentence@,
                    seq,
                    in_summary,
                ),
    {
        out.push(
            Claim {
                kind: reading.kinds[i],
                seq,
                quote: truncate(sentence, 160),
                in_summary,
                subject: None,
            },
        );
    }
    let ghost n = reading.kinds@.len() as int;
    for i in 0..reading.files.len()
        invariant
            n == reading.kinds@.len(),
            out@.len() == n + i,
            forall|k: int|
                0 <= k < n ==> (#[trigger] out@[k]).deep_view() == wording_claim(
                    reading.kinds@[k],
                    sentence@,
                    seq,
                    in_summary,
                ),
            forall|k: int|
                n <= k < n + i ==> (#[trigger] out@[k]).deep_view() == file_claim(
                    reading.files@[k - n]@,
                    sentence@,
                    seq,
                    in_summary,
                ),
    {
        out.push(
            Claim {
                kind: ClaimKind::FileWritten,
                seq,
                quote: truncate(sentence, 160),
                in_summary,
                subject: Some(reading.files[i].clone()),
            },
        );
    }
    assert(out.deep_view() =~= claims_by(
        reading.hedged,
        reading.negated,
        reading.kinds@,
        reading.files.deep_view(),
        sentence@,
        seq,
        in_summary,
    ));
    out
}

impl Matchers {
    /// Paths mentioned as having been created or written.
    fn file_claims(&self, sentence: &str) -> (r: Vec<String>)
        requires
            self.ready(),
        ensures
            r.deep_view() == files_in(pattern::regex_captures_all(FILE@, sentence@), sentence@),
    {
        let found = self.file.captures_all(sentence);
        files_among(&found, sentence)
    }

    fn read(&self, sentence: &str) -> (r: SentenceReading)
        requires
            self.ready(),
        ensures
            r.hedged == hedged(sentence@),
            r.negated == negated(sentence@),
            r.kinds@ == kinds_in(sentence@),
            r.files.deep_view() == files_in(
                pattern::regex_captures_all(FILE@, sentence@),
                sentence@,
            ),
    {
        SentenceReading {
            hedged: self.is_hedged(sentence),
            negated: self.is_negated(sentence),
            kinds: self.kinds_matched(sentence),
            files: self.file_claims(sentence),
        }
    }

    fn claims_in_message(&self, prose: &str, seq: usize, in_summary: bool) -> (r: Vec<Claim>)
        requires
            self.ready(),
        ensures
            r.deep_view() == lists::gathered(
                sentences_of(prose@),
                |s: Seq<char>| sentence_claims(s, seq, in_summary),
            ),
    {
        let sentences = self.sentences(prose);
        let ghost all = sentences.deep_view();
        let ghost f = |s: Seq<char>| sentence_claims(s, seq, in_summary);
        let mut out: Vec<Claim> = Vec::new();
        assert(out.deep_view() =~= Seq::empty());
        for i in 0..sentences.len()
            invariant
                self.ready(),
                all == sentences.deep_view(),
                f == (|s: Seq<char>| sentence_claims(s, seq, in_summary)),
                out.deep_view() == lists::gathered(all.take(i as int), f),
        {
            let ghost before = out.deep_view();
            proof {
                lists::lemma_gathered_step(all, f, i as int);
                assert(all[i as int] == sentences@[i as int]@);
            }
            let sentence = sentences[i].as_str();
            let reading = self.read(sentence);
            let mut found = claims_in_sentence(&reading, sentence, seq, in_summary);
            let ghost new = found.deep_view();
            out.append(&mut found);
            assert(out.deep_view() =~= before + new);
        }
        assert(all.take(all.len() as int) =~= all);
        out
    }
}

// ---------------------------------------------------------------- the last of each claim

/// One claim comes earlier in the transcript than another.
pub open spec fn earlier() -> spec_fn(ClaimModel, ClaimModel) -> bool {
    |a: ClaimModel, b: ClaimModel| a.seq < b.seq
}

/// Two claims say the same thing.
pub open spec fn same_claim(a: ClaimModel, b: ClaimModel) -> bool {
    a.kind == b.kind && a.subject == b.subject
}

/// A later claim says the same thing as claim `i`.
pub open spec fn superseded(s: Seq<ClaimModel>, i: int) -> bool {
    exists|j: int| i < j < s.len() && same_claim(s[i], #[trigger] s[j])
}

/// Those of the first `n` claims that no later one supersedes.
pub open spec fn standing(s: Seq<ClaimModel>, n: int) -> Seq<ClaimModel>
    decreases n,
{
    if n <= 0 {
        Seq::empty()
    } else if superseded(s, n - 1) {
        standing(s, n - 1)
    } else {
        standing(s, n - 1).push(s[n - 1])
    }
}

/// The last occurrence of each claim.
pub open spec fn last_of_each(s: Seq<ClaimModel>) -> Seq<ClaimModel> {
    let sorted = lists::in_order(s, earlier());
    standing(sorted, sorted.len() as int)
}

/// Sort the claims by their position in the transcript; those at one position keep their order.
fn sort_by_seq(claims: &Vec<Claim>) -> (r: Vec<Claim>)
    ensures
        r.deep_view() == lists::in_order(claims.deep_view(), earlier()),
{
    let ghost all = claims.deep_view();
    let mut out: Vec<Claim> = Vec::new();
    assert(out.deep_view() =~= lists::in_order(all.take(0), earlier()));
    for i in 0..claims.len()
        invariant
            all == claims.deep_view(),
            out.deep_view() == lists::in_order(all.take(i as int), earlier()),
    {
        let ghost before = out.deep_view();
        let mut at: usize = out.len();
        while at > 0 && out[at - 1].seq > claims[i].seq
            invariant
                at <= out@.len(),
                i < claims@.len(),
                before == out.deep_view(),
                forall|k: int|
                    at <= k < before.len() ==> earlier()(
                        claims@[i as int].deep_view(),
                        #[trigger] before[k],
                    ),
            decreases at,
        {
            assert(before[at - 1].seq == out@[at - 1].seq);
            at = at - 1;
        }
        let c = claims[i].clone();
        proof {
            if at > 0 {
                assert(before[at - 1].seq == out@[at - 1].seq);
            }
            lists::lemma_placed(before, c.deep_view(), earlier(), at as int);
            assert(all.take(i + 1).drop_last() =~= all.take(i as int));
            assert(all.take(i + 1).last() == claims@[i as int].deep_view());
        }
        out.insert(at, c);
        assert(out.deep_view() =~= before.insert(at as int, c.deep_view()));
    }
    assert(all.take(all.len() as int) =~= all);
    out
}

fn say_the_same(a: &Claim, b: &Claim) -> (r: bool)
    ensures
        r == same_claim(a.deep_view(), b.deep_view()),
{
    if a.kind != b.kind {
        return false;
    }
    match (&a.subject, &b.subject) {
        (Some(x), Some(y)) => text::same(x.as_str(), y.as_str()),
        (None, None) => true,
        _ => false,
    }
}

/// Keep the last occurrence of each (kind, subject): later claims supersede earlier ones, and the
/// summary is what the user actually reads.
pub fn dedupe(claims: Vec<Claim>) -> (r: Vec<Claim>)
    ensures
        r.deep_view() == last_of_each(claims.deep_view()),
{
    let sorted = sort_by_seq(&claims);
    let ghost all = sorted.deep_view();
    let mut out: Vec<Claim> = Vec::new();
    assert(out.deep_view() =~= Seq::empty());
    for i in 0..sorted.len()
        invariant
            all == sorted.deep_view(),
            out.deep_view() == standing(all, i as int),
    {
        let ghost before = out.deep_view();
        let mut again = false;
        let mut j: usize = i + 1;
        while j < sorted.len()
            invariant
                i < j <= sorted.len(),
                all == sorted.deep_view(),
                again == exists|k: int| i < k < j && same_claim(all[i as int], #[trigger] all[k]),
            decreases sorted.len() - j,
        {
            assert(all[i as int] == sorted@[i as int].deep_view());
            assert(all[j as int] == sorted@[j as int].deep_view());
            if say_the_same(&sorted[i], &sorted[j]) {
                again = true;
            }
            j = j + 1;
        }
        assert(again == superseded(all, i as int));
        if !again {
            out.push(sorted[i].clone());
            assert(out.deep_view() =~= before.push(all[i as int]));
        }
    }
    out
}

/// The claims of a session that count: the last of each.
pub open spec fn claims_of(texts: Seq<AssistantTextModel>) -> Seq<ClaimModel> {
    last_of_each(all_claims(texts))
}

/// Extract every claim in the transcript.
pub fn extract(transcript: &Transcript) -> (r: Vec<Claim>)
    ensures
        r.deep_view() == claims_of(transcript.deep_view().assistant_texts),
{
    let matchers = Matchers::all_patterns();
    let mut claims: Vec<Claim> = Vec::new();
    let ghost all = transcript.deep_view().assistant_texts;
    let ghost f = |m: AssistantTextModel| message_claims(m);
    assert(claims.deep_view() =~= Seq::empty());
    for i in 0..transcript.assistant_texts.len()
        invariant
            matchers.ready(),
            all == transcript.assistant_texts.deep_view(),
            f == (|m: AssistantTextModel| message_claims(m)),
            claims.deep_view() == lists::gathered(all.take(i as int), f),
    {
        let ghost before = claims.deep_view();
        let msg = &transcript.assistant_texts[i];
        proof {
            lists::lemma_gathered_step(all, f, i as int);
            assert(all[i as int] == msg.deep_view());
        }
        let mut found = matchers.claims_in_message(msg.text.as_str(), msg.seq, msg.is_last);
        let ghost new = found.deep_view();
        claims.append(&mut found);
        assert(claims.deep_view() =~= before + new);
    }
    assert(all.take(all.len() as int) =~= all);
    dedupe(claims)
}

// ---------------------------------------------------------------- laws

/// A hedged sentence makes no claim, and neither does one that asserts the opposite.
pub proof fn law_hedged_and_negated_sentences_claim_nothing(
    sentence: Seq<char>,
    seq: usize,
    in_summary: bool,
)
    requires
        hedged(sentence) || negated(sentence),
    ensures
        sentence_claims(sentence, seq, in_summary).len() == 0,
{
}

proof fn lemma_fenced(lines: Seq<Seq<char>>, n: int)
    requires
        1 <= n < lines.len(),
        is_fence(lines[0]),
        forall|i: int| 1 <= i < lines.len() - 1 ==> !is_fence(#[trigger] lines[i]),
    ensures
        fenced_after(lines, n),
        sentences_upto(lines, n).len() == 0,
    decreases n,
{
    reveal_with_fuel(fenced_after, 2);
    reveal_with_fuel(sentences_upto, 2);
    if n > 1 {
        lemma_fenced(lines, n - 1);
        assert(!is_fence(lines[n - 1]));
    }
}

/// A fenced block makes no sentences, however many lines it spans.
pub proof fn law_a_fenced_block_says_nothing(lines: Seq<Seq<char>>)
    requires
        lines.len() >= 2,
        is_fence(lines[0]),
        is_fence(lines.last()),
        forall|i: int| 1 <= i < lines.len() - 1 ==> !is_fence(#[trigger] lines[i]),
    ensures
        sentences_upto(lines, lines.len() as int).len() == 0,
        !fenced_after(lines, lines.len() as int),
{
    lemma_fenced(lines, lines.len() - 1);
}

/// A quotation is at most one character longer than what it is cut to.
pub proof fn law_quotes_are_short(s: Seq<char>, max: nat)
    ensures
        truncated(s, max).len() <= max + 1,
{
    let t = text::trimmed(s);
    reveal_strlit("…");
    if t.len() > max {
        text::lemma_back_trimmed(t.take(max as int), text::whites());
    }
}

/// Every claim of a message carries the message's position and says whether it is the summary.
pub proof fn law_claims_carry_their_message(m: AssistantTextModel, i: int)
    requires
        0 <= i < message_claims(m).len(),
    ensures
        message_claims(m)[i].seq == m.seq,
        message_claims(m)[i].in_summary == m.is_last,
        message_claims(m)[i].quote.len() <= 161,
{
    let f = |s: Seq<char>| sentence_claims(s, m.seq, m.is_last);
    let sentences = sentences_of(m.text);
    lists::lemma_gathered_from(sentences, f);
    let c = message_claims(m)[i];
    let k = choose|k: int| 0 <= k < sentences.len() && f(#[trigger] sentences[k]).contains(c);
    law_quotes_are_short(sentences[k], 160);
    let found = f(sentences[k]);
    let j = choose|j: int| 0 <= j < found.len() && found[j] == c;
    assert(found[j] == c);
}

proof fn lemma_standing(s: Seq<ClaimModel>, n: int)
    requires
        0 <= n <= s.len(),
    ensures
        forall|k: int|
            0 <= k < standing(s, n).len() ==> exists|i: int|
                0 <= i < n && #[trigger] s[i] == #[trigger] standing(s, n)[k] && !superseded(s, i),
        forall|i: int| 0 <= i < n && !(#[trigger] superseded(s, i)) ==> standing(s, n).contains(s[i]),
        forall|k: int, m: int|
            0 <= k < m < standing(s, n).len() ==> !same_claim(
                #[trigger] standing(s, n)[k],
                #[trigger] standing(s, n)[m],
            ),
    decreases n,
{
    if n > 0 {
        lemma_standing(s, n - 1);
        let before = standing(s, n - 1);
        let after = standing(s, n);
        assert forall|k: int| 0 <= k < after.len() implies exists|i: int|
            0 <= i < n && #[trigger] s[i] == #[trigger] after[k] && !superseded(s, i) by {
            if k < before.len() {
                assert(after[k] == before[k]);
                let i = choose|i: int|
                    0 <= i < n - 1 && #[trigger] s[i] == before[k] && !superseded(s, i);
                assert(s[i] == after[k]);
            } else {
                assert(s[n - 1] == after[k]);
            }
        }
        assert forall|i: int| 0 <= i < n && !(#[trigger] superseded(s, i)) implies after.contains(
            s[i],
        ) by {
            if i < n - 1 {
                assert(before.contains(s[i]));
                let k = choose|k: int| 0 <= k < before.len() && before[k] == s[i];
                assert(after[k] == s[i]);
            } else {
                assert(after[after.len() - 1] == s[i]);
            }
        }
        assert forall|k: int, m: int| 0 <= k < m < after.len() implies !same_claim(
            #[trigger] after[k],
            #[trigger] after[m],
        ) by {
            if m < before.len() {
                assert(!same_claim(before[k], before[m]));
            } else {
                assert(after[k] == before[k]);
                let i = choose|i: int|
                    0 <= i < n - 1 && #[trigger] s[i] == before[k] && !superseded(s, i);
                assert(!same_claim(s[i], s[n - 1]));
            }
        }
    }
}

/// No claim is reported twice.
pub proof fn law_no_claim_is_reported_twice(s: Seq<ClaimModel>, i: int, j: int)
    requires
        0 <= i < j < last_of_each(s).len(),
    ensures
        !same_claim(last_of_each(s)[i], last_of_each(s)[j]),
{
    let sorted = lists::in_order(s, earlier());
    lemma_standing(sorted, sorted.len() as int);
}

proof fn lemma_standing_for(s: Seq<ClaimModel>, i: int)
    requires
        0 <= i < s.len(),
        lists::is_sorted(s, earlier()),
    ensures
        exists|c: ClaimModel| #[trigger]
            standing(s, s.len() as int).contains(c) && same_claim(s[i], c) && c.seq >= s[i].seq,
    decreases s.len() - i,
{
    lemma_standing(s, s.len() as int);
    if superseded(s, i) {
        let j = choose|j: int| i < j < s.len() && same_claim(s[i], #[trigger] s[j]);
        lemma_standing_for(s, j);
        assert(!earlier()(s[j], s[i]));
        let c = choose|c: ClaimModel| #[trigger]
            standing(s, s.len() as int).contains(c) && same_claim(s[j], c) && c.seq >= s[j].seq;
        assert(standing(s, s.len() as int).contains(c) && same_claim(s[i], c));
    } else {
        assert(standing(s, s.len() as int).contains(s[i]));
    }
}

/// Later claims supersede earlier ones: of every claim that was made, the one that is reported
/// says the same thing and does not come earlier. Whatever is reported was claimed.
pub proof fn law_the_last_of_each_claim_is_reported(s: Seq<ClaimModel>, c: ClaimModel)
    ensures
        s.contains(c) ==> exists|d: ClaimModel| #[trigger]
            last_of_each(s).contains(d) && same_claim(c, d) && d.seq >= c.seq,
        last_of_each(s).contains(c) ==> s.contains(c),
{
    let sorted = lists::in_order(s, earlier());
    lists::lemma_in_order(s, earlier());
    lists::lemma_in_order_contains(s, earlier());
    lemma_standing(sorted, sorted.len() as int);
    if s.contains(c) {
        assert(sorted.contains(c));
        let i = choose|i: int| 0 <= i < sorted.len() && sorted[i] == c;
        lemma_standing_for(sorted, i);
    }
    if last_of_each(s).contains(c) {
        let k = choose|k: int| 0 <= k < last_of_each(s).len() && last_of_each(s)[k] == c;
        let i = choose|i: int|
            0 <= i < sorted.len() && #[trigger] sorted[i] == standing(sorted, sorted.len() as int)[k]
                && !superseded(sorted, i);
        assert(sorted.contains(sorted[i]));
    }
}

proof fn lemma_standing_sorted(s: Seq<ClaimModel>, n: int)
    requires
        0 <= n <= s.len(),
        lists::is_sorted(s, earlier()),
    ensures
        forall|k: int, m: int|
            0 <= k < m < standing(s, n).len() ==> (#[trigger] standing(s, n)[k]).seq <= (
            #[trigger] standing(s, n)[m]).seq,
    decreases n,
{
    if n > 0 {
        lemma_standing_sorted(s, n - 1);
        lemma_standing(s, n - 1);
        let before = standing(s, n - 1);
        let after = standing(s, n);
        assert forall|k: int, m: int| 0 <= k < m < after.len() implies (#[trigger] after[k]).seq <= (
        #[trigger] after[m]).seq by {
            if m < before.len() {
                assert(before[k].seq <= before[m].seq);
            } else {
                assert(after[k] == before[k]);
                let i = choose|i: int|
                    0 <= i < n - 1 && #[trigger] s[i] == before[k] && !superseded(s, i);
                assert(!earlier()(s[n - 1], s[i]));
            }
        }
    }
}

/// Claims are reported in the order of the transcript.
pub proof fn law_claims_are_in_transcript_order(s: Seq<ClaimModel>, i: int, j: int)
    requires
        0 <= i < j < last_of_each(s).len(),
    ensures
        last_of_each(s)[i].seq <= last_of_each(s)[j].seq,
{
    let sorted = lists::in_order(s, earlier());
    lists::lemma_in_order(s, earlier());
    lemma_standing_sorted(sorted, sorted.len() as int);
}

/// Every claim of a session was made in one of its messages: it has that message's position, and
/// is marked as made in the summary exactly where the message is the last.
pub proof fn law_claims_come_from_messages(texts: Seq<AssistantTextModel>, i: int)
    requires
        0 <= i < claims_of(texts).len(),
    ensures
        exists|k: int|
            0 <= k < texts.len() && (#[trigger] texts[k]).seq == claims_of(texts)[i].seq
                && texts[k].is_last == claims_of(texts)[i].in_summary,
{
    let c = claims_of(texts)[i];
    assert(claims_of(texts).contains(c));
    law_the_last_of_each_claim_is_reported(all_claims(texts), c);
    let f = |m: AssistantTextModel| message_claims(m);
    lists::lemma_gathered_from(texts, f);
    let j = choose|j: int| 0 <= j < all_claims(texts).len() && all_claims(texts)[j] == c;
    let k = choose|k: int|
        0 <= k < texts.len() && f(#[trigger] texts[k]).contains(all_claims(texts)[j]);
    let found = message_claims(texts[k]);
    let n = choose|n: int| 0 <= n < found.len() && found[n] == c;
    law_claims_carry_their_message(texts[k], n);
    assert(texts[k].seq == c.seq);
}

// ---------------------------------------------------------------- what is claimed

/// What a sentence claims by its wording. A sentence that is hedged, a question, a description of
/// something else or a negation claims nothing. Of any other, each wording that it holds makes its
/// own claim, whatever else the sentence claims, and no other claim of its kind is made.
pub proof fn law_each_wording_makes_its_claim(sentence: Seq<char>, seq: usize, in_summary: bool)
    ensures
        ({
            let claims = sentence_claims(sentence, seq, in_summary);
            let says = |e: Seq<char>| pattern::regex_is_match(e, sentence);
            let made = |kind: ClaimKind|
                claims.contains(
                    ClaimModel {
                        kind,
                        seq,
                        quote: truncated(sentence, 160),
                        in_summary,
                        subject: None,
                    },
                );
            let quiet = says(
                r"(?i)\b(let me|i'?ll|i will|going to|next,? i|should i|shall i|can you|could you|need to|want to|planning to|about to|if |once |after |when |unless |until |make sure|ensure|verify that|check (?:that|whether|if)|to confirm|hopefully|assuming|in order to|so that|which (?:should|would)|would (?:be|make)|please )"@,
            ) || text::ends(text::back_trimmed(sentence, text::whites()), "?"@) || says(
                r"(?i)\b(on every (?:single )?run|every single run|each run|each time|every time|used to|previously|historically|in the past|before this|which (?:did|does|was|were|had|has)|the (?:culprit|cause|reason|channel) )"@,
            ) || says(
                r"(?i)\bpush(?:ed|es|ing)?\b[^.]{0,60}\b(over|past|beyond|across|through|into place|off|aside|back|down|up|onto|out of view|below the fold|to the (?:right|left)|out of|further)\b"@,
            ) || pattern::regex_is_match(
                r"(?i)\b(do(?:es)?n'?t|did\s+not|didn'?t|is\s?n'?t|are\s?n'?t|was\s?n'?t|were\s?n'?t|not|no|nowhere|none|never|fail(?:s|ed|ing|ure|ures)?|broken|breaks?|error(?:s)?|cannot|can'?t|couldn'?t|unable|still|pending|remains?)\b"@,
                pattern::regex_replaced(
                    r"(?i)\bno\s+(?:errors?|issues?|warnings?|failures?|problems?|regressions?|complaints?)\b|\bwithout\s+(?:errors?|issues?|warnings?|failures?|problems?)\b|\bzero\s+(?:errors?|issues?|failures?|warnings?)\b|\bno\s+longer\s+fail"@,
                    sentence,
                    " "@,
                ),
            );
            &&& quiet ==> claims.len() == 0
            &&& !quiet ==> {
                &&& made(ClaimKind::TestsPass) <==> says(
                    r"(?i)\b(?:all |the |\d+ )*tests?(?: suite)?\b[^.]{0,30}\b(pass(?:es|ed|ing)?|succeed(?:s|ed)?)\b|\b(?:tests?|test suite|suite|build|ci)\b\s*(?:is|are|all|now|still|were)?\s*green\b|\ball green\b"@,
                )
                &&& made(ClaimKind::ChecksPass) <==> says(
                    r"(?i)\ball (?:the )?checks?\b[^.]{0,20}\bpass(?:es|ed|ing)?\b|\beverything (?:is |was )?green\b|\ball green\b"@,
                )
                &&& made(ClaimKind::TypeCheckPasses) <==> says(
                    r"(?i)\b(mypy|pyright|tsc|type[ -]?check(?:s|ing)?|types?)\b[^.]{0,30}\b(pass(?:es|ed|ing)?|clean|clear|happy|no (?:errors|issues))\b"@,
                )
                &&& made(ClaimKind::LintPasses) <==> says(
                    r"(?i)\b(lint(?:er|ing)?|ruff|eslint|clippy|flake8)\b[^.]{0,30}\b(pass(?:es|ed|ing)?|clean|clear|happy|no (?:errors|issues|warnings))\b"@,
                )
                &&& made(ClaimKind::BuildPasses) <==> says(
                    r"(?i)\b(build|compil(?:es|ed|ation))\b[^.]{0,25}\b(succe(?:eds|eded|ssful)|pass(?:es|ed)?|clean(?:ly)?|works?|fine)\b"@,
                )
                &&& made(ClaimKind::Committed) <==> says(
                    r"(?i)\b(i(?:'ve| have)? committed|committed (?:the|these|all|it|them|everything)|(?:changes|work|fix|it) (?:is|are|were|has been|have been) committed|created (?:a|the) commit|commit(?:ted)? (?:and pushed|locally))\b"@,
                )
                &&& made(ClaimKind::Pushed) <==> says(
                    r"(?i)\b(i(?:'ve| have)? pushed|pushed (?:the|these|all|it|them|to)|(?:changes|work|branch|commits?) (?:is|are|were|has been|have been) pushed)\b"@,
                )
                &&& !made(ClaimKind::FileWritten)
            }
        }),
{
    let all = claim_patterns();
    let f = |p: (ClaimKind, Seq<char>)|
        if pattern::regex_is_match(p.1, sentence) {
            Some(p.0)
        } else {
            None
        };
    let kinds = kinds_in(sentence);
    lists::lemma_selected_from(all, f);
    assert forall|i: int| 0 <= i < all.len() implies kinds.contains((#[trigger] all[i]).0)
        == pattern::regex_is_match(all[i].1, sentence) by {
        if pattern::regex_is_match(all[i].1, sentence) {
            lists::lemma_selected_keeps(all, f, i);
        }
        if kinds.contains(all[i].0) {
            let j = choose|j: int| 0 <= j < kinds.len() && kinds[j] == all[i].0;
            let k = choose|k: int| 0 <= k < all.len() && f(#[trigger] all[k]) == Some(kinds[j]);
            assert(k == i);
        }
    }
    assert(!kinds.contains(ClaimKind::FileWritten)) by {
        if kinds.contains(ClaimKind::FileWritten) {
            let j = choose|j: int| 0 <= j < kinds.len() && kinds[j] == ClaimKind::FileWritten;
            let k = choose|k: int| 0 <= k < all.len() && f(#[trigger] all[k]) == Some(kinds[j]);
        }
    }
    if !hedged(sentence) && !negated(sentence) {
        lemma_claims_by(sentence, seq, in_summary);
        assert(kinds.contains(all[0].0) == pattern::regex_is_match(all[0].1, sentence));
        assert(kinds.contains(all[1].0) == pattern::regex_is_match(all[1].1, sentence));
        assert(kinds.contains(all[2].0) == pattern::regex_is_match(all[2].1, sentence));
        assert(kinds.contains(all[3].0) == pattern::regex_is_match(all[3].1, sentence));
        assert(kinds.contains(all[4].0) == pattern::regex_is_match(all[4].1, sentence));
        assert(kinds.contains(all[5].0) == pattern::regex_is_match(all[5].1, sentence));
        assert(kinds.contains(all[6].0) == pattern::regex_is_match(all[6].1, sentence));
        let claims = sentence_claims(sentence, seq, in_summary);
        let made = |kind: ClaimKind|
            claims.contains(wording_claim(kind, sentence, seq, in_summary));
        assert(made(ClaimKind::TestsPass) == kinds.contains(ClaimKind::TestsPass));
        assert(made(ClaimKind::ChecksPass) == kinds.contains(ClaimKind::ChecksPass));
        assert(made(ClaimKind::TypeCheckPasses) == kinds.contains(ClaimKind::TypeCheckPasses));
        assert(made(ClaimKind::LintPasses) == kinds.contains(ClaimKind::LintPasses));
        assert(made(ClaimKind::BuildPasses) == kinds.contains(ClaimKind::BuildPasses));
        assert(made(ClaimKind::Committed) == kinds.contains(ClaimKind::Committed));
        assert(made(ClaimKind::Pushed) == kinds.contains(ClaimKind::Pushed));
        assert(made(ClaimKind::FileWritten) == kinds.contains(ClaimKind::FileWritten));
    }
}

/// The claims of a sentence that is neither hedged nor negated are those of its kinds and files.
proof fn lemma_claims_by(sentence: Seq<char>, seq: usize, in_summary: bool)
    requires
        !hedged(sentence),
        !negated(sentence),
    ensures
        forall|kind: ClaimKind|
            #![trigger wording_claim(kind, sentence, seq, in_summary)]
            sentence_claims(sentence, seq, in_summary).contains(
                wording_claim(kind, sentence, seq, in_summary),
            ) <==> kinds_in(sentence).contains(kind),
        forall|path: Seq<char>|
            #![trigger file_claim(path, sentence, seq, in_summary)]
            sentence_claims(sentence, seq, in_summary).contains(
                file_claim(path, sentence, seq, in_summary),
            ) <==> files_in(pattern::regex_captures_all(FILE@, sentence), sentence).contains(path),
{
    let claims = sentence_claims(sentence, seq, in_summary);
    let kinds = kinds_in(sentence);
    let files = files_in(pattern::regex_captures_all(FILE@, sentence), sentence);
    let a = kinds.map_values(|k: ClaimKind| wording_claim(k, sentence, seq, in_summary));
    let b = files.map_values(|p: Seq<char>| file_claim(p, sentence, seq, in_summary));
    assert(claims == a + b);
    assert forall|kind: ClaimKind|
        #![trigger wording_claim(kind, sentence, seq, in_summary)]
        claims.contains(wording_claim(kind, sentence, seq, in_summary)) <==> kinds.contains(
            kind,
        ) by {
        let c = wording_claim(kind, sentence, seq, in_summary);
        if claims.contains(c) {
            let i = choose|i: int| 0 <= i < claims.len() && claims[i] == c;
            if i < a.len() {
                assert(a[i] == c);
                assert(kinds[i] == kind);
            } else {
                assert(b[i - a.len()] == c);
            }
        }
        if kinds.contains(kind) {
            let i = choose|i: int| 0 <= i < kinds.len() && kinds[i] == kind;
            assert(claims[i] == c);
        }
    }
    assert forall|path: Seq<char>|
        #![trigger file_claim(path, sentence, seq, in_summary)]
        claims.contains(file_claim(path, sentence, seq, in_summary)) <==> files.contains(path) by {
        let c = file_claim(path, sentence, seq, in_summary);
        if claims.contains(c) {
            let i = choose|i: int| 0 <= i < claims.len() && claims[i] == c;
            if i < a.len() {
                assert(a[i] == c);
            } else {
                assert(b[i - a.len()] == c);
                assert(files[i - a.len()] == path);
            }
        }
        if files.contains(path) {
            let i = choose|i: int| 0 <= i < files.len() && files[i] == path;
            assert(claims[a.len() + i] == c);
        }
    }
}

/// The extension behind the last full stop is that of a web address.
pub open spec fn has_web_suffix(path: Seq<char>) -> bool {
    exists|stem: Seq<char>, ext: Seq<char>|
        #![trigger stem + seq!['.'] + ext]
        path == stem + seq!['.'] + ext && !ext.contains('.') && seq![
            "com"@,
            "org"@,
            "net"@,
            "io"@,
            "dev"@,
            "ai"@,
            "co"@,
            "sh"@,
            "me"@,
            "app"@,
            "gov"@,
            "edu"@,
            "uk"@,
            "ca"@,
            "html"@,
        ].contains(text::lowered(ext))
}

/// The text behind the last full stop.
proof fn lemma_extension(path: Seq<char>)
    requires
        path.contains('.'),
    ensures
        exists|stem: Seq<char>|
            path == #[trigger] (stem + seq!['.']) + text::after_last(path, text::among("."@)),
        !text::after_last(path, text::among("."@)).contains('.'),
    decreases path.len(),
{
    reveal_strlit(".");
    let set = "."@;
    let p = text::among(set);
    assert(set[0] == '.');
    assert(set =~= seq!['.']);
    let front = path.drop_last();
    if path.last() == '.' {
        assert(set.contains(path.last()));
        assert(p(path.last()));
        assert(path =~= (front + seq!['.']) + Seq::<char>::empty());
    } else {
        let i = choose|i: int| 0 <= i < path.len() && path[i] == '.';
        assert(front[i] == '.');
        lemma_extension(front);
        assert(!p(path.last())) by {
            if set.contains(path.last()) {
                let k = choose|k: int| 0 <= k < set.len() && set[k] == path.last();
            }
        }
        let ext = text::after_last(front, p);
        let stem = choose|stem: Seq<char>| front == #[trigger] (stem + seq!['.']) + ext;
        assert(path =~= front.push(path.last()));
        assert(front == (stem + seq!['.']) + ext);
        assert(path =~= (stem + seq!['.']) + ext.push(path.last()));
        let longer = ext.push(path.last());
        if longer.contains('.') {
            let k = choose|k: int| 0 <= k < longer.len() && longer[k] == '.';
            if k < ext.len() {
                assert(ext[k] == '.');
            }
        }
    }
}

/// A path has a web suffix exactly where the text behind its last full stop is one.
proof fn lemma_web_suffix(path: Seq<char>)
    requires
        path.contains('.'),
    ensures
        has_web_suffix(path) == ends_like_address(path),
{
    let ext = text::after_last(path, text::among("."@));
    lemma_extension(path);
    let stem = choose|stem: Seq<char>| path == #[trigger] (stem + seq!['.']) + ext;
    if ends_like_address(path) {
        assert(path == stem + seq!['.'] + ext);
    }
    if has_web_suffix(path) {
        let (a, b) = choose|a: Seq<char>, b: Seq<char>|
            #![trigger a + seq!['.'] + b]
            path == a + seq!['.'] + b && !b.contains('.') && tlds().contains(text::lowered(b));
        if a.len() < stem.len() {
            assert(path[stem.len() as int] == '.');
            assert(b[stem.len() - a.len() - 1] == '.');
            assert(b.contains('.'));
        }
        if stem.len() < a.len() {
            assert(path[a.len() as int] == '.');
            assert(ext[a.len() - stem.len() - 1] == '.');
            assert(ext.contains('.'));
        }
        assert(path == a + seq!['.'] + b);
        assert(path == stem + seq!['.'] + ext);
        assert(a.len() == stem.len());
        assert(path.skip(a.len() as int + 1) =~= b);
        assert(path.skip(stem.len() as int + 1) =~= ext);
    }
}

/// The files that a sentence claims to have written are the paths that stand behind a word of
/// writing, each of them: but for abbreviations, web addresses, and what is part of a link.
pub proof fn law_each_file_makes_its_claim(
    sentence: Seq<char>,
    seq: usize,
    in_summary: bool,
    path: Seq<char>,
)
    requires
        !hedged(sentence),
        !negated(sentence),
    ensures
        ({
            let found = pattern::regex_captures_all(
                r"(?i)\b(?:created|added|wrote|written|updated|modified)\b[^.]{0,60}?\b([\w./-]+\.[a-z]{1,6})\b"@,
                sentence,
            );
            sentence_claims(sentence, seq, in_summary).contains(
                ClaimModel {
                    kind: ClaimKind::FileWritten,
                    seq,
                    quote: truncated(sentence, 160),
                    in_summary,
                    subject: Some(path),
                },
            ) <==> {
                &&& exists|i: int|
                    0 <= i < found.len() && pattern::group_of(#[trigger] found[i], 1) == path
                &&& !text::begins(path, "e.g"@)
                &&& path.contains('.')
                &&& !(has_web_suffix(path) && !path.contains('/'))
                &&& !(has_web_suffix(path) && (text::has(sentence, "://"@) || text::has(
                    sentence,
                    "www."@,
                )) && text::has(sentence, "/"@ + path))
            }
        }),
{
    let found = pattern::regex_captures_all(FILE@, sentence);
    let f = |g: Seq<Option<Seq<char>>>| file_in(g, sentence);
    let files = files_in(found, sentence);
    lemma_claims_by(sentence, seq, in_summary);
    lists::lemma_selected_from(found, f);
    let c = file_claim(path, sentence, seq, in_summary);
    if path.contains('.') {
        lemma_web_suffix(path);
    }
    if files.contains(path) {
        let j = choose|j: int| 0 <= j < files.len() && files[j] == path;
        let i = choose|i: int| 0 <= i < found.len() && f(#[trigger] found[i]) == Some(files[j]);
        assert(pattern::group_of(found[i], 1) == path);
    }
    if names_file(path, sentence) && exists|i: int|
        0 <= i < found.len() && pattern::group_of(#[trigger] found[i], 1) == path {
        let i = choose|i: int|
            0 <= i < found.len() && pattern::group_of(#[trigger] found[i], 1) == path;
        assert(f(found[i]) == Some(path));
        lists::lemma_selected_keeps(found, f, i);
    }
}

/// Every claim of every sentence of every message is reported, under the same kind and subject,
/// from the same message or a later one.
pub proof fn law_every_claim_is_reported(
    texts: Seq<AssistantTextModel>,
    k: int,
    n: int,
    c: ClaimModel,
)
    requires
        0 <= k < texts.len(),
        0 <= n < sentences_of(texts[k].text).len(),
        sentence_claims(sentences_of(texts[k].text)[n], texts[k].seq, texts[k].is_last).contains(c),
    ensures
        exists|i: int|
            0 <= i < claims_of(texts).len() && (#[trigger] claims_of(texts)[i]).kind == c.kind
                && claims_of(texts)[i].subject == c.subject && claims_of(texts)[i].seq >= c.seq,
{
    let m = texts[k];
    let g = |s: Seq<char>| sentence_claims(s, m.seq, m.is_last);
    lists::lemma_gathered_keeps(sentences_of(m.text), g, n, c);
    let f = |m: AssistantTextModel| message_claims(m);
    assert(f(m).contains(c));
    lists::lemma_gathered_keeps(texts, f, k, c);
    law_the_last_of_each_claim_is_reported(all_claims(texts), c);
    let out = claims_of(texts);
    let d = choose|d: ClaimModel| #[trigger]
        last_of_each(all_claims(texts)).contains(d) && same_claim(c, d) && d.seq >= c.seq;
    let i = choose|i: int| 0 <= i < out.len() && out[i] == d;
    assert(out[i].kind == c.kind);
}

/// What is reported was claimed in a sentence, none of it twice, and where the same was claimed
/// again in a later message, the later claim is the one reported.
pub proof fn law_the_latest_claim_stands(texts: Seq<AssistantTextModel>, i: int)
    requires
        0 <= i < claims_of(texts).len(),
    ensures
        ({
            let out = claims_of(texts);
            &&& exists|k: int, n: int|
                0 <= k < texts.len() && 0 <= n < sentences_of(texts[k].text).len()
                    && #[trigger] sentence_claims(
                    sentences_of(texts[k].text)[n],
                    texts[k].seq,
                    texts[k].is_last,
                ).contains(out[i])
            &&& forall|j: int|
                0 <= j < out.len() && j != i ==> (#[trigger] out[j]).kind != out[i].kind
                    || out[j].subject != out[i].subject
            &&& forall|j: int|
                0 <= j < all_claims(texts).len() && (#[trigger] all_claims(texts)[j]).kind
                    == out[i].kind && all_claims(texts)[j].subject == out[i].subject
                    ==> all_claims(texts)[j].seq <= out[i].seq
            &&& forall|j: int| 0 <= j < i ==> (#[trigger] out[j]).seq <= out[i].seq
        }),
{
    let out = claims_of(texts);
    let all = all_claims(texts);
    let c = out[i];
    assert(out.contains(c));
    law_the_last_of_each_claim_is_reported(all, c);
    let f = |m: AssistantTextModel| message_claims(m);
    lists::lemma_gathered_from(texts, f);
    let j = choose|j: int| 0 <= j < all.len() && all[j] == c;
    let k = choose|k: int| 0 <= k < texts.len() && f(#[trigger] texts[k]).contains(all[j]);
    let m = texts[k];
    let g = |s: Seq<char>| sentence_claims(s, m.seq, m.is_last);
    let found = message_claims(m);
    lists::lemma_gathered_from(sentences_of(m.text), g);
    let x = choose|x: int| 0 <= x < found.len() && found[x] == c;
    let said = sentences_of(m.text);
    let n = choose|n: int| 0 <= n < said.len() && g(#[trigger] said[n]).contains(found[x]);
    assert(sentence_claims(
        sentences_of(texts[k].text)[n],
        texts[k].seq,
        texts[k].is_last,
    ).contains(out[i]));
    assert forall|j: int| 0 <= j < out.len() && j != i implies (#[trigger] out[j]).kind
        != out[i].kind || out[j].subject != out[i].subject by {
        if j < i {
            law_no_claim_is_reported_twice(all, j, i);
        } else {
            law_no_claim_is_reported_twice(all, i, j);
        }
    }
    assert forall|j: int|
        0 <= j < all.len() && (#[trigger] all[j]).kind == out[i].kind && all[j].subject
            == out[i].subject implies all[j].seq <= out[i].seq by {
        assert(all.contains(all[j]));
        law_the_last_of_each_claim_is_reported(all, all[j]);
        let d = choose|d: ClaimModel| #[trigger]
            last_of_each(all).contains(d) && same_claim(all[j], d) && d.seq >= all[j].seq;
        let y = choose|y: int| 0 <= y < out.len() && out[y] == d;
        if y < i {
            law_no_claim_is_reported_twice(all, y, i);
        }
        if i < y {
            law_no_claim_is_reported_twice(all, i, y);
        }
    }
    assert forall|j: int| 0 <= j < i implies (#[trigger] out[j]).seq <= out[i].seq by {
        law_claims_are_in_transcript_order(all, j, i);
    }
}

/// Which lines of a message are prose. A line that opens or closes a fenced block is none, nor is
/// a line inside one, a blank line, or a line that is indented by four spaces or a tab. What is
/// left is read without its code spans and its marks of emphasis.
pub proof fn law_which_lines_are_prose(lines: Seq<Seq<char>>, i: int)
    requires
        0 <= i < lines.len(),
    ensures
        ({
            let t = text::trimmed(lines[i]);
            let fence = text::begins(t, "```"@) || text::begins(t, "~~~"@);
            &&& !fenced_after(lines, 0)
            &&& fenced_after(lines, i + 1) == (if fence {
                !fenced_after(lines, i)
            } else {
                fenced_after(lines, i)
            })
            &&& sentences_upto(lines, 0).len() == 0
            &&& if fence || fenced_after(lines, i) || t.len() == 0 || text::begins(
                lines[i],
                "    "@,
            ) || text::begins(lines[i], "\t"@) {
                sentences_upto(lines, i + 1) == sentences_upto(lines, i)
            } else {
                sentences_upto(lines, i + 1) == sentences_upto(lines, i) + sentences_from(
                    text::without(
                        text::without(
                            pattern::regex_replaced(r"`[^`]*`"@, text::trimmed(lines[i]), " "@),
                            "**"@,
                        ),
                        "__"@,
                    ),
                    0,
                    Seq::empty(),
                )
            }
        }),
{
    assert(sentences_upto(lines, i) + Seq::<Seq<char>>::empty() =~= sentences_upto(lines, i));
}

/// The sentences of a message are what its lines hold, without white space and the marks of lists
/// and headings in front, and without those of which nothing is left.
pub proof fn law_sentences_are_bare(prose: Seq<char>, x: Seq<char>)
    ensures
        ({
            let lines = text::lines_of(prose);
            let said = sentences_upto(lines, lines.len() as int);
            sentences_of(prose).contains(x) <==> x.len() > 0 && exists|i: int|
                0 <= i < said.len() && x == text::front_trimmed(
                    text::trimmed(#[trigger] said[i]),
                    |c: char| c == '-' || c == '*' || c == '#' || c == ' ',
                )
        }),
{
    let lines = text::lines_of(prose);
    let said = sentences_upto(lines, lines.len() as int);
    let f = |x: Seq<char>| bare_sentence(x);
    let marks = |c: char| c == '-' || c == '*' || c == '#' || c == ' ';
    reveal_strlit("-*# ");
    let set = "-*# "@;
    let p = text::among(set);
    assert(set[0] == '-' && set[1] == '*' && set[2] == '#' && set[3] == ' ');
    assert forall|c: char| #[trigger] p(c) == marks(c) by {
        if set.contains(c) {
            let k = choose|k: int| 0 <= k < set.len() && set[k] == c;
        }
    }
    assert(p =~= marks);
    lists::lemma_selected_from(said, f);
    let out = sentences_of(prose);
    if out.contains(x) {
        let j = choose|j: int| 0 <= j < out.len() && out[j] == x;
        let i = choose|i: int| 0 <= i < said.len() && f(#[trigger] said[i]) == Some(out[j]);
        assert(x == text::front_trimmed(text::trimmed(said[i]), marks));
    }
    if x.len() > 0 && exists|i: int|
        0 <= i < said.len() && x == text::front_trimmed(text::trimmed(#[trigger] said[i]), marks) {
        let i = choose|i: int|
            0 <= i < said.len() && x == text::front_trimmed(
                text::trimmed(#[trigger] said[i]),
                marks,
            );
        assert(f(said[i]) == Some(x));
        lists::lemma_selected_keeps(said, f, i);
    }
}

/// A sentence ends at the first full stop or exclamation mark with white space behind it that
/// leaves more than eight bytes before it; what follows is read afresh.
pub proof fn law_where_a_sentence_ends(front: Seq<char>, rest: Seq<char>)
    requires
        front.len() > 0,
        front.last() == '.' || front.last() == '!' || front.last() == '。',
        rest.len() == 0 || text::is_white(rest[0]),
        text::byte_len_of(text::trimmed(front)) > 8,
        forall|i: int|
            0 <= i < front.len() - 1 && (#[trigger] front[i] == '.' || front[i] == '!' || front[i]
                == '。') && text::is_white(front[i + 1]) ==> text::byte_len_of(
                text::trimmed(front.take(i + 1)),
            ) <= 8,
    ensures
        sentences_from(front + rest, 0, Seq::empty()) == seq![front] + sentences_from(
            rest,
            0,
            Seq::empty(),
        ),
{
    let s = front + rest;
    let n = front.len() as int;
    assert(front.take(0) =~= Seq::<char>::empty());
    assert(s.take(n) =~= front);
    lemma_no_end_before(s, front, 0);
    assert(front.take(n - 1).push(s[n - 1]) =~= front);
    assert(stops_at(s, n - 1)) by {
        if rest.len() > 0 {
            assert(s[n] == rest[0]);
        }
    }
    lemma_sentences_behind(front, rest, 0, Seq::empty());
}

/// No sentence ends before the end of the front.
proof fn lemma_no_end_before(s: Seq<char>, front: Seq<char>, i: int)
    requires
        0 <= i < front.len() <= s.len(),
        s.take(front.len() as int) == front,
        forall|i: int|
            0 <= i < front.len() - 1 && (#[trigger] front[i] == '.' || front[i] == '!' || front[i]
                == '。') && text::is_white(front[i + 1]) ==> text::byte_len_of(
                text::trimmed(front.take(i + 1)),
            ) <= 8,
    ensures
        sentences_from(s, i, front.take(i)) == sentences_from(
            s,
            front.len() - 1,
            front.take(front.len() - 1),
        ),
    decreases front.len() - i,
{
    if i < front.len() - 1 {
        assert(s[i] == s.take(front.len() as int)[i]);
        assert(s[i + 1] == s.take(front.len() as int)[i + 1]);
        assert(front.take(i).push(s[i]) =~= front.take(i + 1));
        lemma_no_end_before(s, front, i + 1);
    }
}

/// What is read from a position on does not depend on what stands before it.
proof fn lemma_sentences_behind(a: Seq<char>, s: Seq<char>, i: int, cur: Seq<char>)
    requires
        0 <= i <= s.len(),
    ensures
        sentences_from(a + s, a.len() + i, cur) == sentences_from(s, i, cur),
    decreases s.len() - i,
{
    if i < s.len() {
        assert((a + s)[a.len() + i] == s[i]);
        if i + 1 < s.len() {
            assert((a + s)[a.len() + i + 1] == s[i + 1]);
        }
        assert(stops_at(a + s, a.len() + i) == stops_at(s, i));
        lemma_sentences_behind(a, s, i + 1, cur.push(s[i]));
        lemma_sentences_behind(a, s, i + 1, Seq::empty());
    }
}

/// A text in which no sentence ends is one sentence, or none where it is blank.
pub proof fn law_a_text_without_an_end_is_one_sentence(s: Seq<char>)
    requires
        forall|i: int|
            0 <= i < s.len() && (#[trigger] s[i] == '.' || s[i] == '!' || s[i] == '。') && (i + 1
                == s.len() || text::is_white(s[i + 1])) ==> text::byte_len_of(
                text::trimmed(s.take(i + 1)),
            ) <= 8,
    ensures
        text::trimmed(s).len() == 0 ==> sentences_from(s, 0, Seq::empty()).len() == 0,
        text::trimmed(s).len() > 0 ==> sentences_from(s, 0, Seq::empty()) == seq![s],
{
    assert(s.take(0) =~= Seq::<char>::empty());
    lemma_one_sentence(s, 0);
}

proof fn lemma_one_sentence(s: Seq<char>, i: int)
    requires
        0 <= i <= s.len(),
        forall|i: int|
            0 <= i < s.len() && (#[trigger] s[i] == '.' || s[i] == '!' || s[i] == '。') && (i + 1
                == s.len() || text::is_white(s[i + 1])) ==> text::byte_len_of(
                text::trimmed(s.take(i + 1)),
            ) <= 8,
    ensures
        sentences_from(s, i, s.take(i)) == (if text::trimmed(s).len() == 0 {
            Seq::empty()
        } else {
            seq![s]
        }),
    decreases s.len() - i,
{
    if i < s.len() {
        assert(s.take(i).push(s[i]) =~= s.take(i + 1));
        lemma_one_sentence(s, i + 1);
    } else {
        assert(s.take(i) =~= s);
    }
}

/// A quote is the sentence without the white space round it; a longer one is cut off after the
/// first so many characters, without white space before the mark that it goes on.
pub proof fn law_how_quotes_are_cut(s: Seq<char>, max: nat)
    ensures
        ({
            let t = text::trimmed(s);
            &&& t.len() <= max ==> truncated(s, max) == t
            &&& t.len() > max ==> exists|n: int|
                0 <= n <= max && truncated(s, max) == #[trigger] t.take(n) + "…"@ && (n > 0
                    ==> !text::is_white(t[n - 1])) && (forall|i: int|
                    n <= i < max ==> text::is_white(#[trigger] t[i]))
        }),
{
    let t = text::trimmed(s);
    if t.len() > max {
        let cut = t.take(max as int);
        let kept = text::back_trimmed(cut, text::whites());
        text::lemma_back_trimmed(cut, text::whites());
        lemma_back_trimmed_whites(cut);
        let n = kept.len() as int;
        assert(t.take(n) =~= cut.take(n));
        assert(n > 0 ==> t[n - 1] == kept.last());
        assert forall|i: int| n <= i < max implies text::is_white(#[trigger] t[i]) by {
            assert(cut[i] == t[i]);
        }
    }
}

/// Trimming at the end takes white space away, and all of it.
proof fn lemma_back_trimmed_whites(s: Seq<char>)
    ensures
        ({
            let kept = text::back_trimmed(s, text::whites());
            &&& kept.len() <= s.len()
            &&& kept.len() > 0 ==> !text::is_white(kept.last())
            &&& forall|i: int| kept.len() <= i < s.len() ==> text::is_white(#[trigger] s[i])
        }),
    decreases s.len(),
{
    if s.len() > 0 && text::whites()(s.last()) {
        lemma_back_trimmed_whites(s.drop_last());
        let kept = text::back_trimmed(s, text::whites());
        assert forall|i: int| kept.len() <= i < s.len() implies text::is_white(#[trigger] s[i]) by {
            if i < s.len() - 1 {
                assert(s.drop_last()[i] == s[i]);
            }
        }
    }
}

/// What the kinds of claims are called.
pub proof fn law_what_claims_are_called()
    ensures
        claim_label(ClaimKind::TestsPass) == "tests pass"@,
        claim_label(ClaimKind::ChecksPass) == "checks pass"@,
        claim_label(ClaimKind::TypeCheckPasses) == "type check passes"@,
        claim_label(ClaimKind::LintPasses) == "lint passes"@,
        claim_label(ClaimKind::BuildPasses) == "build succeeds"@,
        claim_label(ClaimKind::Committed) == "changes committed"@,
        claim_label(ClaimKind::Pushed) == "changes pushed"@,
        claim_label(ClaimKind::FileWritten) == "file written"@,
{
}

} // verus!
