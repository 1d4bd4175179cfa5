//! Finding the transcripts of a project.
//!
//! Transcripts are stored under `projects/<encoded-cwd>/<session-id>.jsonl` in the agent's own
//! directory, where the directory name is the working directory with path separators replaced by dashes.
//! What is on disk is listed elsewhere; this module names the directory and picks from the list.

use vstd::prelude::*;

use crate::lists;
use crate::text;

verus! {

/// A character of a project folder's name, for a character of the directory.
pub open spec fn encoded_char(c: char) -> char {
    if c == '/' || c == '\\' || c == '.' || c == '_' {
        '-'
    } else {
        c
    }
}

/// The name of a directory's project folder.
pub open spec fn encoded(cwd: Seq<char>) -> Seq<char> {
    cwd.map_values(|c: char| encoded_char(c))
}

/// Encode a working directory the way the agent names its project folders.
pub fn encode_cwd(cwd: &str) -> (r: String)
    ensures
        r@ == encoded(cwd@),
{
    let cs = text::chars_of(cwd);
    let mut out = String::new();
    assert(out@ =~= encoded(cwd@.take(0)));
    for i in 0..cs.len()
        invariant
            cs@ == cwd@,
            out@ == encoded(cwd@.take(i as int)),
    {
        let c = cs[i];
        out.push(
            if c == '/' || c == '\\' || c == '.' || c == '_' {
                '-'
            } else {
                c
            },
        );
        assert(out@ =~= encoded(cwd@.take(i + 1)));
    }
    assert(cwd@.take(cwd@.len() as int) =~= cwd@);
    out
}

/// A file name is that of a transcript.
pub open spec fn names_transcript(name: Seq<char>) -> bool {
    text::ends(name, ".jsonl"@) && name.len() > 6
}

/// Is this the file name of a transcript: does it have the extension, with something before it?
pub fn is_transcript_name(name: &str) -> (r: bool)
    ensures
        r == names_transcript(name@),
{
    let cs = text::chars_of(name);
    text::ends_with(name, ".jsonl") && cs.len() > 6
}

/// A transcript on disk: when it was last modified, in nanoseconds since the epoch, and its path.
#[derive(Debug)]
pub struct Stored {
    pub modified: i128,
    pub path: String,
}

/// What a [`Stored`] stands for.
#[verifier::ext_equal]
pub struct StoredModel {
    pub modified: i128,
    pub path: Seq<char>,
}

impl DeepView for Stored {
    type V = StoredModel;

    open spec fn deep_view(&self) -> StoredModel {
        StoredModel { modified: self.modified, path: self.path@ }
    }
}

/// The most recently modified of the first `n` transcripts, the first of several.
pub open spec fn newest_upto(items: Seq<StoredModel>, n: int) -> Option<StoredModel>
    decreases n,
{
    if n <= 0 {
        None
    } else {
        match newest_upto(items, n - 1) {
            Some(best) if items[n - 1].modified <= best.modified => Some(best),
            _ => Some(items[n - 1]),
        }
    }
}

/// The most recently modified transcript, the first of several.
pub open spec fn newest_of(items: Seq<StoredModel>) -> Option<StoredModel> {
    newest_upto(items, items.len() as int)
}

/// The most recently modified transcript, the first of several.
pub fn newest(items: &Vec<Stored>) -> (r: Option<&Stored>)
    ensures
        r.deep_view() == newest_of(items.deep_view()),
{
    let ghost all = items.deep_view();
    let mut best: Option<&Stored> = None;
    for i in 0..items.len()
        invariant
            all == items.deep_view(),
            best.deep_view() == newest_upto(all, i as int),
    {
        assert(all[i as int] == items@[i as int].deep_view());
        best = match best {
            Some(b) => {
                if items[i].modified <= b.modified {
                    Some(b)
                } else {
                    Some(&items[i])
                }
            },
            None => Some(&items[i]),
        };
    }
    best
}

/// One transcript is newer than another.
pub open spec fn newer() -> spec_fn(StoredModel, StoredModel) -> bool {
    |a: StoredModel, b: StoredModel| a.modified > b.modified
}

/// The transcripts, newest first; those of one time keep their order.
pub fn newest_first(items: &Vec<Stored>) -> (r: Vec<&Stored>)
    ensures
        r.deep_view() == lists::in_order(items.deep_view(), newer()),
{
    let ghost all = items.deep_view();
    let mut out: Vec<&Stored> = Vec::new();
    assert(out.deep_view() =~= lists::in_order(all.take(0), newer()));
    for i in 0..items.len()
        invariant
            all == items.deep_view(),
            out.deep_view() == lists::in_order(all.take(i as int), newer()),
    {
        let ghost before = out.deep_view();
        let x = &items[i];
        let mut at: usize = out.len();
        while at > 0 && x.modified > out[at - 1].modified
            invariant
                at <= out@.len(),
                before == out.deep_view(),
                forall|k: int|
                    at <= k < before.len() ==> newer()(x.deep_view(), #[trigger] before[k]),
            decreases at,
        {
            assert(before[at - 1] == out@[at - 1].deep_view());
            at = at - 1;
        }
        proof {
            if at > 0 {
                assert(before[at - 1] == out@[at - 1].deep_view());
            }
            lists::lemma_placed(before, x.deep_view(), newer(), at as int);
            assert(all.take(i + 1).drop_last() =~= all.take(i as int));
            assert(all.take(i + 1).last() == x.deep_view());
        }
        out.insert(at, x);
        assert(out.deep_view() =~= before.insert(at as int, x.deep_view()));
    }
    assert(all.take(all.len() as int) =~= all);
    out
}

// ---------------------------------------------------------------- laws

/// A project folder's name has one character for each of the directory's, and none of those that
/// separate the parts of a path or of a name.
pub proof fn law_encoding_keeps_length(cwd: Seq<char>)
    ensures
        encoded(cwd).len() == cwd.len(),
        !encoded(cwd).contains('/'),
        !encoded(cwd).contains('\\'),
        !encoded(cwd).contains('.'),
        !encoded(cwd).contains('_'),
{
}

/// Encoding a name that is already encoded changes nothing.
pub proof fn law_encoding_is_idempotent(cwd: Seq<char>)
    ensures
        encoded(encoded(cwd)) == encoded(cwd),
{
    assert(encoded(encoded(cwd)) =~= encoded(cwd));
}

proof fn lemma_newest_is_first(items: Seq<StoredModel>)
    ensures
        lists::in_order(items, newer()).len() == items.len(),
        items.len() > 0 ==> newest_of(items) == Some(lists::in_order(items, newer())[0]),
    decreases items.len(),
{
    if items.len() > 0 {
        let front = items.drop_last();
        lemma_newest_is_first(front);
        lemma_newest_prefix(items, front.len() as int);
        let sorted = lists::in_order(front, newer());
        lists::lemma_in_order(front, newer());
        lemma_placed_first(sorted, items.last());
    }
}

proof fn lemma_newest_prefix(items: Seq<StoredModel>, n: int)
    requires
        0 <= n < items.len(),
    ensures
        newest_upto(items, n) == newest_upto(items.drop_last(), n),
    decreases n,
{
    if n > 0 {
        lemma_newest_prefix(items, n - 1);
    }
}

proof fn lemma_placed_first(s: Seq<StoredModel>, c: StoredModel)
    requires
        lists::is_sorted(s, newer()),
    ensures
        lists::placed(s, c, newer()).len() == s.len() + 1,
        lists::placed(s, c, newer())[0] == (if s.len() == 0 || c.modified > s[0].modified {
            c
        } else {
            s[0]
        }),
    decreases s.len(),
{
    if s.len() > 0 {
        if c.modified > s.last().modified {
            lemma_placed_first(s.drop_last(), c);
        } else if s.len() > 1 {
            assert(!newer()(s[s.len() - 1], s[0]));
        }
    }
}

/// The transcript that is picked as the newest is the one that a list of all of them, newest
/// first, begins with.
pub proof fn law_newest_is_first(items: Seq<StoredModel>)
    requires
        items.len() > 0,
    ensures
        lists::in_order(items, newer()).len() == items.len(),
        newest_of(items) == Some(lists::in_order(items, newer())[0]),
{
    lemma_newest_is_first(items);
}

/// No transcript in the list, newest first, is newer than one before it, and the list holds the
/// same transcripts.
pub proof fn law_newest_first_is_sorted(items: Seq<StoredModel>)
    ensures
        forall|i: int, j: int|
            0 <= i < j < lists::in_order(items, newer()).len() ==> (#[trigger] lists::in_order(
                items,
                newer(),
            )[i]).modified >= (#[trigger] lists::in_order(items, newer())[j]).modified,
        lists::in_order(items, newer()).to_multiset() == items.to_multiset(),
{
    lists::lemma_in_order(items, newer());
    let sorted = lists::in_order(items, newer());
    assert forall|i: int, j: int| 0 <= i < j < sorted.len() implies (#[trigger] sorted[i]).modified
        >= (#[trigger] sorted[j]).modified by {
        assert(!newer()(sorted[j], sorted[i]));
    }
}

/// Each character of a directory's name that separates, and each full stop and underscore, becomes
/// a dash; every other character stays as it is, in its place.
pub proof fn law_how_a_directory_is_encoded(cwd: Seq<char>, i: int)
    requires
        0 <= i < cwd.len(),
    ensures
        encoded(cwd).len() == cwd.len(),
        cwd[i] == '/' || cwd[i] == '\\' || cwd[i] == '.' || cwd[i] == '_' ==> encoded(cwd)[i] == '-',
        cwd[i] != '/' && cwd[i] != '\\' && cwd[i] != '.' && cwd[i] != '_' ==> encoded(cwd)[i]
            == cwd[i],
{
}

/// A transcript is a file with the ending `.jsonl` and a name before it.
pub proof fn law_which_files_are_transcripts(stem: Seq<char>, name: Seq<char>)
    ensures
        stem.len() > 0 ==> names_transcript(stem + ".jsonl"@),
        names_transcript(name) ==> exists|s: Seq<char>|
            s.len() > 0 && name == #[trigger] (s + ".jsonl"@),
{
    reveal_strlit(".jsonl");
    let end = ".jsonl"@;
    assert(end.len() == 6);
    if stem.len() > 0 {
        let whole = stem + end;
        assert(whole.subrange(whole.len() - 6, whole.len() as int) =~= end);
    }
    if names_transcript(name) {
        let s = name.take(name.len() - 6);
        assert(name.subrange(name.len() - 6, name.len() as int) == end);
        assert(name =~= s + end);
    }
}

/// The newest is the one that none is newer than, and of several the first.
pub proof fn law_which_is_the_newest(items: Seq<StoredModel>)
    ensures
        items.len() == 0 <==> newest_of(items) is None,
        items.len() > 0 ==> exists|i: int|
            0 <= i < items.len() && newest_of(items) == Some(#[trigger] items[i]) && (forall|j: int|
                0 <= j < items.len() ==> (#[trigger] items[j]).modified <= items[i].modified && (j
                    < i ==> items[j].modified < items[i].modified)),
{
    lemma_newest(items, items.len() as int);
}

proof fn lemma_newest(items: Seq<StoredModel>, n: int)
    requires
        0 <= n <= items.len(),
    ensures
        n == 0 <==> newest_upto(items, n) is None,
        n > 0 ==> exists|i: int|
            0 <= i < n && newest_upto(items, n) == Some(#[trigger] items[i]) && (forall|j: int|
                0 <= j < n ==> (#[trigger] items[j]).modified <= items[i].modified && (j < i
                    ==> items[j].modified < items[i].modified)),
    decreases n,
{
    if n > 1 {
        lemma_newest(items, n - 1);
        let k = choose|i: int|
            0 <= i < n - 1 && newest_upto(items, n - 1) == Some(#[trigger] items[i]) && (forall|
                j: int,
            |
                0 <= j < n - 1 ==> (#[trigger] items[j]).modified <= items[i].modified && (j < i
                    ==> items[j].modified < items[i].modified));
        if items[n - 1].modified <= items[k].modified {
            assert(newest_upto(items, n) == Some(items[k]));
        } else {
            assert(newest_upto(items, n) == Some(items[n - 1]));
        }
    } else if n == 1 {
        assert(newest_upto(items, 0) is None);
        assert(newest_upto(items, 1) == Some(items[0]));
    }
}

} // verus!
