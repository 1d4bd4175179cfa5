//! Regular expressions, as the `regex` crate reads them.
//!
//! What an expression matches takes the crate's own documentation to say. So each question that
//! the library puts to it has a name here, a function of the expression and the text alone, and
//! the contracts elsewhere speak of these names.

use regex::Regex;
use vstd::prelude::*;

use crate::runners::command;

verus! {

/// `regex::Regex`, an expression ready to be matched.
#[verifier::external_type_specification]
#[verifier::external_body]
pub struct ExRegex(Regex);

/// Whether the expression matches anywhere in the text (`Regex::is_match`). An expression that
/// the crate refuses matches nothing.
pub uninterp spec fn regex_is_match(pattern: Seq<char>, text: Seq<char>) -> bool;

/// The leftmost match (`Regex::find`), as the text before it, the matched text and the text
/// after it.
pub uninterp spec fn regex_find(pattern: Seq<char>, text: Seq<char>) -> Option<
    (Seq<char>, Seq<char>, Seq<char>),
>;

/// How many matches there are from left to right without overlap (`Regex::find_iter`).
pub uninterp spec fn regex_count(pattern: Seq<char>, text: Seq<char>) -> nat;

/// The groups of the leftmost match (`Regex::captures`), the whole match first; a group that
/// took no part is `None`.
pub uninterp spec fn regex_captures(pattern: Seq<char>, text: Seq<char>) -> Option<
    Seq<Option<Seq<char>>>,
>;

/// The groups of every match, from left to right (`Regex::captures_iter`).
pub uninterp spec fn regex_captures_all(pattern: Seq<char>, text: Seq<char>) -> Seq<
    Seq<Option<Seq<char>>>,
>;

/// The text with each match replaced (`Regex::replace_all`).
pub uninterp spec fn regex_replaced(
    pattern: Seq<char>,
    text: Seq<char>,
    with: Seq<char>,
) -> Seq<char>;

/// The text of group `n`, empty where the group took no part or does not exist.
pub open spec fn group_of(groups: Seq<Option<Seq<char>>>, n: int) -> Seq<char> {
    if 0 <= n < groups.len() && groups[n] is Some {
        groups[n]->0
    } else {
        Seq::empty()
    }
}

/// A compiled expression, which knows the text that it was compiled from.
///
/// The fields are private and [`Pattern::new`] is the only function that makes a value, so
/// `compiled` always belongs to `source`.
pub struct Pattern {
    source: String,
    compiled: Option<Regex>,
}

impl View for Pattern {
    type V = Seq<char>;

    closed spec fn view(&self) -> Seq<char> {
        self.source@
    }
}

impl Pattern {
    /// `Regex::new`. An expression that the crate refuses gives a pattern that never matches.
    #[verifier::external_body]
    pub(crate) fn new(source: &str) -> (p: Pattern)
        ensures
            p@ == source@,
    {
        Pattern { source: source.to_string(), compiled: Regex::new(source).ok() }
    }

    /// `Regex::is_match`: the named answer.
    #[verifier::external_body]
    pub(crate) fn is_match(&self, text: &str) -> (r: bool)
        ensures
            r == regex_is_match(self@, text@),
    {
        self.compiled.as_ref().is_some_and(|r| r.is_match(text))
    }

    /// `Regex::find`: the named answer. The three parts make up the text. The two expressions for
    /// what launches a command are anchored at the start of the text and spell out the word there,
    /// with white space behind it: they find nothing in a text that starts otherwise.
    #[verifier::external_body]
    pub(crate) fn find(&self, text: &str) -> (r: Option<(String, String, String)>)
        ensures
            r.deep_view() == regex_find(self@, text@),
            r matches Some(f) ==> f.0@ + f.1@ + f.2@ == text@,
            r is Some && command::is_launcher(self@) ==> command::names_launcher(text@),
    {
        let m = self.compiled.as_ref()?.find(text)?;
        Some((text[..m.start()].to_string(), m.as_str().to_string(), text[m.end()..].to_string()))
    }

    /// `Regex::find_iter`: the named number of matches.
    #[verifier::external_body]
    pub(crate) fn count(&self, text: &str) -> (r: usize)
        ensures
            r == regex_count(self@, text@),
    {
        self.compiled.as_ref().map_or(0, |r| r.find_iter(text).count())
    }

    /// `Regex::captures`: the named answer.
    #[verifier::external_body]
    pub(crate) fn captures(&self, text: &str) -> (r: Option<Vec<Option<String>>>)
        ensures
            r.deep_view() == regex_captures(self@, text@),
    {
        let found = self.compiled.as_ref()?.captures(text)?;
        Some(found.iter().map(|g| g.map(|m| m.as_str().to_string())).collect())
    }

    /// `Regex::captures_iter`: the named answer.
    #[verifier::external_body]
    pub(crate) fn captures_all(&self, text: &str) -> (r: Vec<Vec<Option<String>>>)
        ensures
            r.deep_view() == regex_captures_all(self@, text@),
    {
        let found = self.compiled.as_ref().map(|r| r.captures_iter(text)).into_iter().flatten();
        found.map(|c| c.iter().map(|g| g.map(|m| m.as_str().to_string())).collect()).collect()
    }

    /// `Regex::replace_all`: the named answer.
    #[verifier::external_body]
    pub(crate) fn replace_all(&self, text: &str, with: &str) -> (r: String)
        ensures
            r@ == regex_replaced(self@, text@, with@),
    {
        self.compiled.as_ref().map_or(text.to_string(), |r| r.replace_all(text, with).into_owned())
    }
}

/// The text of group `n`, empty where there is none.
pub fn group(groups: &Vec<Option<String>>, n: usize) -> (r: String)
    ensures
        r@ == group_of(groups.deep_view(), n as int),
{
    if n < groups.len() {
        if let Some(t) = &groups[n] {
            return t.clone();
        }
    }
    String::new()
}

} // verus!
