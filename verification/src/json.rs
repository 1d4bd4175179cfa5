//! JSON values, read and written by the `serde_json` crate.
//!
//! The crate is asked about one level of a document at a time: the members of an object, the
//! items of an array, the value of a string. [`Json::parse`] puts the levels together into a
//! tree that the rest of the library reads.

use std::collections::BTreeMap;

use serde_json::value::RawValue;
use vstd::prelude::*;

use crate::lists;
use crate::text;

verus! {

// ---------------------------------------------------------------- what the crate says of a text

/// Whether a text is one JSON document, as `serde_json` reads it.
pub uninterp spec fn json_valid(text: Seq<char>) -> bool;

/// The members of the object that a text holds: each key once, in ascending order, with the text
/// of its value. Where a key is given twice, the last value counts.
pub uninterp spec fn json_members(text: Seq<char>) -> Option<Seq<(Seq<char>, Seq<char>)>>;

/// The texts of the items of the array that a text holds.
pub uninterp spec fn json_items(text: Seq<char>) -> Option<Seq<Seq<char>>>;

/// The string that a text holds, its quotes and escapes resolved.
pub uninterp spec fn json_string(text: Seq<char>) -> Option<Seq<char>>;

/// The truth value that a text holds: the word, with white space round it.
pub open spec fn json_bool(text: Seq<char>) -> Option<bool> {
    let word = text::trimmed_of(text, " \n\t\r"@);
    if word == "true"@ {
        Some(true)
    } else if word == "false"@ {
        Some(false)
    } else {
        None
    }
}

/// A hexadecimal digit.
pub open spec fn hex_digit(n: int) -> char {
    "0123456789abcdef"@[n]
}

/// A character inside a quoted string.
pub open spec fn escaped(c: char) -> Seq<char> {
    if c == '"' || c == '\\' {
        seq!['\\', c]
    } else if c == '\u{8}' {
        seq!['\\', 'b']
    } else if c == '\t' {
        seq!['\\', 't']
    } else if c == '\n' {
        seq!['\\', 'n']
    } else if c == '\u{c}' {
        seq!['\\', 'f']
    } else if c == '\r' {
        seq!['\\', 'r']
    } else if c as int <= 31 {
        seq!['\\', 'u', '0', '0', hex_digit(c as int / 16), hex_digit(c as int % 16)]
    } else {
        seq![c]
    }
}

/// A string as a JSON text, quoted and escaped.
#[verifier::opaque]
pub open spec fn json_quoted(s: Seq<char>) -> Seq<char> {
    seq!['"'] + lists::gathered(s, |c: char| escaped(c)) + seq!['"']
}

/// A JSON text laid out over indented lines, where it is one.
pub uninterp spec fn json_pretty(text: Seq<char>) -> Option<Seq<char>>;

/// The text is one JSON document, with no white space round it.
pub open spec fn is_document(text: Seq<char>) -> bool {
    json_valid(text) && text::trimmed(text) == text
}

/// `serde_json::from_str` into a `Value`: whether it succeeds. White space round a document does
/// not matter to that.
#[verifier::external_body]
fn is_json(text: &str) -> (r: bool)
    ensures
        r == json_valid(text@),
        r ==> json_valid(text::trimmed(text@)),
{
    serde_json::from_str::<serde_json::Value>(text).is_ok()
}

/// `serde_json::from_str` into an ordered map of raw values: the named members. Their keys come
/// in ascending order, each once, and a member's text is a proper part of the object's. The parts of
/// a document are documents, without the white space round them.
#[verifier::external_body]
fn members_in(text: &str) -> (r: Option<Vec<(String, String)>>)
    ensures
        r.deep_view() == json_members(text@),
        r matches Some(ms) ==> text::ascending(
            ms.deep_view().map_values(|m: (Seq<char>, Seq<char>)| m.0),
        ),
        r matches Some(ms) ==> forall|i: int|
            0 <= i < ms@.len() ==> (#[trigger] ms@[i]).1@.len() < text@.len(),
        r matches Some(ms) ==> forall|i: int|
            0 <= i < ms@.len() && json_valid(text@) ==> is_document((#[trigger] ms@[i]).1@),
{
    let map = serde_json::from_str::<BTreeMap<String, Box<RawValue>>>(text).ok()?;
    Some(map.into_iter().map(|(k, v)| (k, v.get().to_string())).collect())
}

/// `serde_json::from_str` into a list of raw values: the named items. An item's text is a
/// proper part of the array's. The parts of a document are documents, without the white space
/// round them.
#[verifier::external_body]
fn items_in(text: &str) -> (r: Option<Vec<String>>)
    ensures
        r.deep_view() == json_items(text@),
        r matches Some(xs) ==> forall|i: int|
            0 <= i < xs@.len() ==> (#[trigger] xs@[i])@.len() < text@.len(),
        r matches Some(xs) ==> forall|i: int|
            0 <= i < xs@.len() && json_valid(text@) ==> is_document((#[trigger] xs@[i])@),
{
    let items = serde_json::from_str::<Vec<Box<RawValue>>>(text).ok()?;
    Some(items.into_iter().map(|v| v.get().to_string()).collect())
}

/// `serde_json::from_str` into a `String`: the named string.
#[verifier::external_body]
fn string_in(text: &str) -> (r: Option<String>)
    ensures
        r.deep_view() == json_string(text@),
{
    serde_json::from_str::<String>(text).ok()
}

/// `serde_json::from_str` into a `bool`: `true` or `false`, with JSON's white space round it.
#[verifier::external_body]
fn bool_in(text: &str) -> (r: Option<bool>)
    ensures
        r == json_bool(text@),
{
    serde_json::from_str::<bool>(text).ok()
}

/// `serde_json::Value::to_string` on a string: quotes round it, with quotes, backslashes and the
/// characters below the space escaped.
#[verifier::external_body]
fn quoted(s: &str) -> (r: String)
    ensures
        r@ == json_quoted(s@),
{
    serde_json::Value::String(s.to_string()).to_string()
}

/// `serde_json::to_string_pretty` on the value that `serde_json::from_str` reads: the named
/// text. It starts with the value itself. A value that is orderly and has no reserved key can be
/// read back, with each number as the crate writes it, and with or without the end of a line behind
/// the text; and it is laid out, unless it is nested deeper than the crate reads.
#[verifier::external_body]
pub(crate) fn pretty(text: &str) -> (r: Option<String>)
    ensures
        r.deep_view() == json_pretty(text@),
        r matches Some(t) ==> t@.len() > 0 && !text::is_white(t@[0]),
        read_back(text@, r.deep_view()),
{
    let value = serde_json::from_str::<serde_json::Value>(text).ok()?;
    serde_json::to_string_pretty(&value).ok()
}

// ---------------------------------------------------------------- the tree

/// A JSON value.
#[derive(Debug)]
pub enum Json {
    Null,
    Bool(bool),
    /// A number, as it is written.
    Number(String),
    Text(String),
    Array(Vec<Json>),
    Object(Vec<(String, Json)>),
}

/// What a [`Json`] stands for.
pub enum JsonModel {
    Null,
    Bool(bool),
    Number(Seq<char>),
    Text(Seq<char>),
    Array(Seq<JsonModel>),
    Object(Seq<(Seq<char>, JsonModel)>),
}

impl DeepView for Json {
    type V = JsonModel;

    open spec fn deep_view(&self) -> JsonModel {
        self.model()
    }
}

impl JsonModel {
    /// The value of the first member called `key`, where this is an object that has one.
    pub open spec fn get(self, key: Seq<char>) -> Option<JsonModel> {
        match self {
            JsonModel::Object(members) => member_from(members, key, 0),
            _ => None,
        }
    }

    pub open spec fn as_str(self) -> Option<Seq<char>> {
        match self {
            JsonModel::Text(t) => Some(t),
            _ => None,
        }
    }

    pub open spec fn as_bool(self) -> Option<bool> {
        match self {
            JsonModel::Bool(b) => Some(b),
            _ => None,
        }
    }

    pub open spec fn as_array(self) -> Option<Seq<JsonModel>> {
        match self {
            JsonModel::Array(items) => Some(items),
            _ => None,
        }
    }

    /// The string member called `key`.
    pub open spec fn str_at(self, key: Seq<char>) -> Option<Seq<char>> {
        match self.get(key) {
            Some(v) => v.as_str(),
            None => None,
        }
    }

    /// The truth value called `key`, `false` where there is none.
    pub open spec fn flag_at(self, key: Seq<char>) -> bool {
        match self.get(key) {
            Some(v) => v.as_bool() == Some(true),
            None => false,
        }
    }
}

/// The value of the first member at or after `from` called `key`.
pub open spec fn member_from(
    members: Seq<(Seq<char>, JsonModel)>,
    key: Seq<char>,
    from: int,
) -> Option<JsonModel>
    decreases members.len() - from,
{
    if from < 0 || from >= members.len() {
        None
    } else if members[from].0 == key {
        Some(members[from].1)
    } else {
        member_from(members, key, from + 1)
    }
}

/// The keys of some members.
pub open spec fn keys_of(members: Seq<(Seq<char>, JsonModel)>) -> Seq<Seq<char>> {
    members.map_values(|m: (Seq<char>, JsonModel)| m.0)
}

/// In every object of a value the keys ascend, so that none stands there twice.
pub open spec fn keys_ascend(v: JsonModel) -> bool
    decreases v,
{
    match v {
        JsonModel::Object(members) => text::ascending(keys_of(members)) && forall|i: int|
            0 <= i < members.len() ==> keys_ascend((#[trigger] members[i]).1),
        JsonModel::Array(items) => forall|i: int|
            0 <= i < items.len() ==> keys_ascend(#[trigger] items[i]),
        _ => true,
    }
}

/// The tree that a JSON text writes.
pub open spec fn tree_of(text: Seq<char>) -> JsonModel
    decreases text.len(),
{
    match json_members(text) {
        Some(ms) => JsonModel::Object(
            Seq::new(
                ms.len(),
                |i: int|
                    (
                        ms[i].0,
                        if ms[i].1.len() < text.len() {
                            tree_of(ms[i].1)
                        } else {
                            JsonModel::Null
                        },
                    ),
            ),
        ),
        None => match json_items(text) {
            Some(xs) => JsonModel::Array(
                Seq::new(
                    xs.len(),
                    |i: int|
                        if xs[i].len() < text.len() {
                            tree_of(xs[i])
                        } else {
                            JsonModel::Null
                        },
                ),
            ),
            None => match json_string(text) {
                Some(s) => JsonModel::Text(s),
                None => match json_bool(text) {
                    Some(b) => JsonModel::Bool(b),
                    None => if text == "null"@ {
                        JsonModel::Null
                    } else {
                        JsonModel::Number(text)
                    },
                },
            },
        },
    }
}

/// The value that a text writes, where it is one JSON document.
pub open spec fn parsed(text: Seq<char>) -> Option<JsonModel> {
    if json_valid(text) {
        Some(tree_of(text::trimmed(text)))
    } else {
        None
    }
}

/// A value as compact JSON.
pub open spec fn compact(v: JsonModel) -> Seq<char>
    decreases v,
{
    match v {
        JsonModel::Null => "null"@,
        JsonModel::Bool(b) => if b {
            "true"@
        } else {
            "false"@
        },
        JsonModel::Number(n) => n,
        JsonModel::Text(t) => json_quoted(t),
        JsonModel::Array(items) => "["@ + text::joined(item_texts(items), ","@) + "]"@,
        JsonModel::Object(members) => "{"@ + text::joined(member_texts(members), ","@) + "}"@,
    }
}

/// Each item as compact JSON.
pub open spec fn item_texts(items: Seq<JsonModel>) -> Seq<Seq<char>>
    decreases items,
{
    Seq::new(
        items.len(),
        |i: int|
            if 0 <= i < items.len() {
                compact(items[i])
            } else {
                Seq::empty()
            },
    )
}

/// Each member as compact JSON: the quoted key, a colon and the value.
pub open spec fn member_texts(members: Seq<(Seq<char>, JsonModel)>) -> Seq<Seq<char>>
    decreases members,
{
    Seq::new(
        members.len(),
        |i: int|
            if 0 <= i < members.len() {
                json_quoted(members[i].0) + ":"@ + compact(members[i].1)
            } else {
                Seq::empty()
            },
    )
}

/// The key that the crate keeps for handing raw texts through: it does not read an object that
/// starts with it as one.
pub open spec fn reserved_key() -> Seq<char> {
    "$serde_json::private::RawValue"@
}

/// A whole number in decimal.
pub open spec fn is_decimal(n: Seq<char>) -> bool {
    exists|k: u64| n == #[trigger] text::decimal_of(k as nat)
}

/// The text of a number.
pub open spec fn is_number(n: Seq<char>) -> bool {
    is_decimal(n) || is_document(n) && tree_of(n) == JsonModel::Number(n)
}

/// A number as the crate writes it.
pub open spec fn written(n: Seq<char>) -> Seq<char> {
    if is_decimal(n) {
        n
    } else {
        match json_pretty(n) {
            Some(t) => t,
            None => n,
        }
    }
}

/// The value with each number as the crate writes it.
pub open spec fn rewritten(v: JsonModel) -> JsonModel
    decreases v,
{
    match v {
        JsonModel::Number(n) => JsonModel::Number(written(n)),
        JsonModel::Array(items) => JsonModel::Array(rewritten_items(items)),
        JsonModel::Object(members) => JsonModel::Object(rewritten_values(members)),
        _ => v,
    }
}

/// Each item with its numbers as the crate writes them.
pub open spec fn rewritten_items(items: Seq<JsonModel>) -> Seq<JsonModel>
    decreases items,
{
    Seq::new(
        items.len(),
        |i: int|
            if 0 <= i < items.len() {
                rewritten(items[i])
            } else {
                JsonModel::Null
            },
    )
}

/// The members with the numbers of each value as the crate writes them.
pub open spec fn rewritten_values(members: Seq<(Seq<char>, JsonModel)>) -> Seq<
    (Seq<char>, JsonModel),
>
    decreases members,
{
    Seq::new(
        members.len(),
        |i: int|
            if 0 <= i < members.len() {
                (members[i].0, rewritten(members[i].1))
            } else {
                (Seq::empty(), JsonModel::Null)
            },
    )
}

/// In every object no key stands twice, and every number is the text of one.
pub open spec fn orderly(v: JsonModel) -> bool
    decreases v,
{
    match v {
        JsonModel::Number(n) => is_number(n),
        JsonModel::Array(items) => forall|i: int|
            0 <= i < items.len() ==> orderly(#[trigger] items[i]),
        JsonModel::Object(members) => keys_of(members).no_duplicates() && forall|i: int|
            0 <= i < members.len() ==> orderly((#[trigger] members[i]).1),
        _ => true,
    }
}

/// No object has a reserved key.
pub open spec fn unreserved(v: JsonModel) -> bool
    decreases v,
{
    match v {
        JsonModel::Array(items) => forall|i: int|
            0 <= i < items.len() ==> unreserved(#[trigger] items[i]),
        JsonModel::Object(members) => forall|i: int|
            0 <= i < members.len() ==> (#[trigger] members[i]).0 != reserved_key() && unreserved(
                members[i].1,
            ),
        _ => true,
    }
}

/// The value has at most `depth` arrays and objects inside each other.
pub open spec fn is_shallow(v: JsonModel, depth: nat) -> bool
    decreases v,
{
    match v {
        JsonModel::Array(items) => depth > 0 && forall|i: int|
            0 <= i < items.len() ==> is_shallow(#[trigger] items[i], (depth - 1) as nat),
        JsonModel::Object(members) => depth > 0 && forall|i: int|
            0 <= i < members.len() ==> is_shallow(
                (#[trigger] members[i]).1,
                (depth - 1) as nat,
            ),
        _ => true,
    }
}

/// The members with `key` set to `value`: in place where it is there, and else before the keys
/// that come after it.
pub open spec fn with_entry(
    members: Seq<(Seq<char>, JsonModel)>,
    key: Seq<char>,
    value: JsonModel,
) -> Seq<(Seq<char>, JsonModel)>
    decreases members.len(),
{
    if members.len() == 0 {
        seq![(key, value)]
    } else if members.last().0 == key {
        members.drop_last().push((key, value))
    } else if text::precedes(members.last().0, key) {
        members.push((key, value))
    } else {
        with_entry(members.drop_last(), key, value).push(members.last())
    }
}

/// The members in the order of their keys.
pub open spec fn arranged(members: Seq<(Seq<char>, JsonModel)>) -> Seq<(Seq<char>, JsonModel)>
    decreases members.len(),
{
    if members.len() == 0 {
        members
    } else {
        with_entry(arranged(members.drop_last()), members.last().0, members.last().1)
    }
}

/// The value with the members of every object in the order of their keys, in which they are read.
pub open spec fn sorted(v: JsonModel) -> JsonModel
    decreases v,
{
    match v {
        JsonModel::Array(items) => JsonModel::Array(sorted_items(items)),
        JsonModel::Object(members) => JsonModel::Object(arranged(sorted_values(members))),
        _ => v,
    }
}

/// Each item sorted.
pub open spec fn sorted_items(items: Seq<JsonModel>) -> Seq<JsonModel>
    decreases items,
{
    Seq::new(
        items.len(),
        |i: int|
            if 0 <= i < items.len() {
                sorted(items[i])
            } else {
                JsonModel::Null
            },
    )
}

/// The members with each value sorted.
pub open spec fn sorted_values(members: Seq<(Seq<char>, JsonModel)>) -> Seq<(Seq<char>, JsonModel)>
    decreases members,
{
    Seq::new(
        members.len(),
        |i: int|
            if 0 <= i < members.len() {
                (members[i].0, sorted(members[i].1))
            } else {
                (Seq::empty(), JsonModel::Null)
            },
    )
}

/// How deep the crate reads.
pub open spec fn depth_limit() -> nat {
    127
}

/// `before` having been laid out as `after`: where `before` writes an orderly value without
/// reserved keys compactly, reading `after` gives that value, sorted, with each number as the
/// crate writes it; and there is such a text unless the value is nested too deep.
#[verifier::opaque]
pub open spec fn read_back(before: Seq<char>, after: Option<Seq<char>>) -> bool {
    forall|v: JsonModel|
        orderly(v) && unreserved(v) && #[trigger] compact(v) == before ==> {
            &&& is_shallow(v, depth_limit()) ==> after is Some
            &&& after matches Some(t) ==> parsed(t) == Some(sorted(rewritten(v))) && parsed(
                t + "\n"@,
            ) == Some(sorted(rewritten(v)))
        }
}

/// A value that the crate writes and reads again but for the form of its numbers: it is orderly,
/// the keys of every object ascend, and none is reserved.
pub open spec fn settled(v: JsonModel) -> bool {
    orderly(v) && keys_ascend(v) && unreserved(v)
}

/// The form of numbers does not matter to keys.
pub proof fn lemma_rewritten_ascends(v: JsonModel)
    requires
        keys_ascend(v),
    ensures
        keys_ascend(rewritten(v)),
    decreases v,
{
    match v {
        JsonModel::Array(items) => {
            let done = rewritten_items(items);
            assert forall|i: int| 0 <= i < done.len() implies keys_ascend(#[trigger] done[i]) by {
                assert(keys_ascend(items[i]));
                lemma_rewritten_ascends(items[i]);
            }
        },
        JsonModel::Object(members) => {
            let done = rewritten_values(members);
            assert(keys_of(done) =~= keys_of(members));
            assert forall|i: int| 0 <= i < done.len() implies keys_ascend((#[trigger] done[i]).1) by {
                assert(keys_ascend(members[i].1));
                lemma_rewritten_ascends(members[i].1);
            }
        },
        _ => {},
    }
}

/// Members whose keys ascend are arranged already.
pub proof fn lemma_arranged(members: Seq<(Seq<char>, JsonModel)>)
    requires
        text::ascending(keys_of(members)),
    ensures
        arranged(members) == members,
    decreases members.len(),
{
    if members.len() > 0 {
        let front = members.drop_last();
        let keys = keys_of(members);
        assert forall|i: int, j: int| 0 <= i < j < keys_of(front).len() implies text::precedes(
            #[trigger] keys_of(front)[i],
            #[trigger] keys_of(front)[j],
        ) by {
            assert(text::precedes(keys[i], keys[j]));
        }
        lemma_arranged(front);
        if front.len() > 0 {
            assert(text::precedes(keys[front.len() - 1], keys[keys.len() - 1]));
            text::lemma_precedes_irreflexive(members.last().0);
        }
        assert(with_entry(front, members.last().0, members.last().1) =~= members);
    }
}

/// A value whose keys ascend is sorted already.
pub proof fn lemma_sorted(v: JsonModel)
    requires
        keys_ascend(v),
    ensures
        sorted(v) == v,
    decreases v,
{
    match v {
        JsonModel::Array(items) => {
            assert forall|i: int| 0 <= i < items.len() implies sorted(#[trigger] items[i])
                == items[i] by {
                lemma_sorted(items[i]);
            }
            assert(sorted_items(items) =~= items);
        },
        JsonModel::Object(members) => {
            assert forall|i: int| 0 <= i < members.len() implies sorted((#[trigger] members[i]).1)
                == members[i].1 by {
                lemma_sorted(members[i].1);
            }
            assert(sorted_values(members) =~= members);
            lemma_arranged(members);
        },
        _ => {},
    }
}

/// Where keys ascend, none stands twice.
pub proof fn lemma_ascending_distinct(keys: Seq<Seq<char>>)
    requires
        text::ascending(keys),
    ensures
        keys.no_duplicates(),
{
    assert forall|i: int, j: int| 0 <= i < keys.len() && 0 <= j < keys.len() && i != j implies keys[i]
        != keys[j] by {
        text::lemma_precedes_irreflexive(keys[i]);
        if i < j {
            assert(text::precedes(keys[i], keys[j]));
        } else {
            assert(text::precedes(keys[j], keys[i]));
        }
    }
}

impl Json {
    pub open spec fn model(self) -> JsonModel
        decreases self,
    {
        match self {
            Json::Null => JsonModel::Null,
            Json::Bool(b) => JsonModel::Bool(b),
            Json::Number(n) => JsonModel::Number(n@),
            Json::Text(t) => JsonModel::Text(t@),
            Json::Array(items) => JsonModel::Array(
                Seq::new(
                    items@.len(),
                    |i: int|
                        if 0 <= i < items@.len() {
                            items@[i].model()
                        } else {
                            JsonModel::Null
                        },
                ),
            ),
            Json::Object(members) => JsonModel::Object(
                Seq::new(
                    members@.len(),
                    |i: int|
                        if 0 <= i < members@.len() {
                            (members@[i].0@, members@[i].1.model())
                        } else {
                            (Seq::empty(), JsonModel::Null)
                        },
                ),
            ),
        }
    }

    /// An object with the members, in their order.
    pub fn object(members: Vec<(String, Json)>) -> (r: Json)
        ensures
            r.deep_view() == JsonModel::Object(members.deep_view()),
    {
        let r = Json::Object(members);
        assert(r.model()->Object_0 =~= members.deep_view());
        r
    }

    /// An array of the items.
    pub fn array(items: Vec<Json>) -> (r: Json)
        ensures
            r.deep_view() == JsonModel::Array(items.deep_view()),
    {
        let r = Json::Array(items);
        assert(r.model()->Array_0 =~= items.deep_view());
        r
    }

    /// Read a JSON document.
    pub fn parse(text: &str) -> (r: Option<Json>)
        ensures
            r.deep_view() == parsed(text@),
            r matches Some(v) ==> keys_ascend(v.deep_view()) && orderly(v.deep_view()),
    {
        if is_json(text) {
            let t = text::trim(text);
            proof {
                text::lemma_trimmed_twice(text@);
            }
            Some(Json::tree(t.as_str()))
        } else {
            None
        }
    }

    fn tree(text: &str) -> (r: Json)
        requires
            is_document(text@),
        ensures
            r.model() == tree_of(text@),
            keys_ascend(r.model()),
            orderly(r.model()),
        decreases text@.len(),
    {
        if let Some(ms) = members_in(text) {
            let mut out: Vec<(String, Json)> = Vec::new();
            for i in 0..ms.len()
                invariant
                    json_members(text@) == Some(ms.deep_view()),
                    forall|k: int|
                        0 <= k < ms@.len() ==> (#[trigger] ms@[k]).1@.len() < text@.len()
                            && is_document(ms@[k].1@),
                    out@.len() == i,
                    forall|k: int|
                        0 <= k < i ==> (#[trigger] out@[k]).0@ == ms@[k].0@ && out@[k].1.model()
                            == tree_of(ms@[k].1@) && keys_ascend(out@[k].1.model()) && orderly(
                            out@[k].1.model(),
                        ),
            {
                assert(ms@[i as int].1@.len() < text@.len());
                out.push((ms[i].0.clone(), Json::tree(ms[i].1.as_str())));
            }
            let r = Json::Object(out);
            assert(r.model()->Object_0 =~= tree_of(text@)->Object_0);
            assert(keys_of(r.model()->Object_0) =~= ms.deep_view().map_values(
                |m: (Seq<char>, Seq<char>)| m.0,
            ));
            proof {
                lemma_ascending_distinct(keys_of(r.model()->Object_0));
            }
            return r;
        }
        if let Some(xs) = items_in(text) {
            let mut out: Vec<Json> = Vec::new();
            for i in 0..xs.len()
                invariant
                    json_members(text@) is None,
                    json_items(text@) == Some(xs.deep_view()),
                    forall|k: int|
                        0 <= k < xs@.len() ==> (#[trigger] xs@[k])@.len() < text@.len()
                            && is_document(xs@[k]@),
                    out@.len() == i,
                    forall|k: int|
                        0 <= k < i ==> (#[trigger] out@[k]).model() == tree_of(xs@[k]@)
                            && keys_ascend(out@[k].model()) && orderly(out@[k].model()),
            {
                assert(xs@[i as int]@.len() < text@.len());
                out.push(Json::tree(xs[i].as_str()));
            }
            let r = Json::Array(out);
            assert(r.model()->Array_0 =~= tree_of(text@)->Array_0);
            return r;
        }
        if let Some(s) = string_in(text) {
            return Json::Text(s);
        }
        if let Some(b) = bool_in(text) {
            return Json::Bool(b);
        }
        if text::same(text, "null") {
            Json::Null
        } else {
            Json::Number(text.to_owned())
        }
    }

    /// The value as compact JSON.
    pub fn to_text(&self) -> (r: String)
        ensures
            r@ == compact(self.model()),
        decreases self,
    {
        match self {
            Json::Null => "null".to_owned(),
            Json::Bool(b) => if *b {
                "true".to_owned()
            } else {
                "false".to_owned()
            },
            Json::Number(n) => n.clone(),
            Json::Text(t) => quoted(t.as_str()),
            Json::Array(items) => {
                let mut parts: Vec<String> = Vec::new();
                assert(decreases_to!(*self => self->Array_0));
                assert(decreases_to!(*self => self->Array_0@));
                for i in 0..items.len()
                    invariant
                        decreases_to!(*self => items@),
                        parts@.len() == i,
                        forall|k: int|
                            0 <= k < i ==> (#[trigger] parts@[k])@ == compact(items@[k].model()),
                {
                    assert(decreases_to!(items@ => items@[i as int]));
                    parts.push(items[i].to_text());
                }
                let mut out = "[".to_owned();
                out.append(text::join(&parts, ",").as_str());
                out.append("]");
                assert(parts.deep_view() =~= item_texts(self.model()->Array_0));
                out
            },
            Json::Object(members) => {
                let mut parts: Vec<String> = Vec::new();
                assert(decreases_to!(*self => self->Object_0));
                assert(decreases_to!(*self => self->Object_0@));
                for i in 0..members.len()
                    invariant
                        decreases_to!(*self => members@),
                        parts@.len() == i,
                        forall|k: int|
                            0 <= k < i ==> (#[trigger] parts@[k])@ == json_quoted(members@[k].0@)
                                + ":"@ + compact(members@[k].1.model()),
                {
                    assert(decreases_to!(members@ => members@[i as int]));
                    assert(decreases_to!(members@[i as int] => members@[i as int].1));
                    let mut part = quoted(members[i].0.as_str());
                    part.append(":");
                    part.append(members[i].1.to_text().as_str());
                    parts.push(part);
                }
                let mut out = "{".to_owned();
                out.append(text::join(&parts, ",").as_str());
                out.append("}");
                assert(parts.deep_view() =~= member_texts(self.model()->Object_0));
                out
            },
        }
    }

    /// The value of the first member called `key`.
    pub fn get(&self, key: &str) -> (r: Option<&Json>)
        ensures
            r.deep_view() == self.model().get(key@),
    {
        match self {
            Json::Object(members) => {
                let ghost all = self.model()->Object_0;
                for i in 0..members.len()
                    invariant
                        self.model() == JsonModel::Object(all),
                        *self == Json::Object(*members),
                        all.len() == members@.len(),
                        forall|k: int|
                            0 <= k < members@.len() ==> #[trigger] all[k] == (
                                members@[k].0@,
                                members@[k].1.model(),
                            ),
                        member_from(all, key@, 0) == member_from(all, key@, i as int),
                {
                    if text::same(members[i].0.as_str(), key) {
                        return Some(&members[i].1);
                    }
                }
                None
            },
            _ => None,
        }
    }

    pub fn as_str(&self) -> (r: Option<&String>)
        ensures
            r.deep_view() == self.model().as_str(),
    {
        match self {
            Json::Text(t) => Some(t),
            _ => None,
        }
    }

    pub fn as_bool(&self) -> (r: Option<bool>)
        ensures
            r == self.model().as_bool(),
    {
        match self {
            Json::Bool(b) => Some(*b),
            _ => None,
        }
    }

    pub fn as_array(&self) -> (r: Option<&Vec<Json>>)
        ensures
            r.deep_view() == self.model().as_array(),
    {
        match self {
            Json::Array(items) => {
                assert(items.deep_view() =~= self.model()->Array_0);
                Some(items)
            },
            _ => None,
        }
    }

    /// The string member called `key`.
    pub fn str_at(&self, key: &str) -> (r: Option<String>)
        ensures
            r.deep_view() == self.model().str_at(key@),
    {
        match self.get(key) {
            Some(v) => match v.as_str() {
                Some(t) => Some(t.clone()),
                None => None,
            },
            None => None,
        }
    }

    /// The truth value called `key`, `false` where there is none.
    pub fn flag_at(&self, key: &str) -> (r: bool)
        ensures
            r == self.model().flag_at(key@),
    {
        match self.get(key) {
            Some(v) => match v.as_bool() {
                Some(b) => b,
                None => false,
            },
            None => false,
        }
    }
}

impl Clone for Json {
    fn clone(&self) -> (r: Json)
        ensures
            r.deep_view() == self.deep_view(),
        decreases self,
    {
        match self {
            Json::Null => Json::Null,
            Json::Bool(b) => Json::Bool(*b),
            Json::Number(n) => Json::Number(n.clone()),
            Json::Text(t) => Json::Text(t.clone()),
            Json::Array(items) => {
                let mut out: Vec<Json> = Vec::new();
                assert(decreases_to!(*self => self->Array_0));
                assert(decreases_to!(*self => self->Array_0@));
                for i in 0..items.len()
                    invariant
                        decreases_to!(*self => items@),
                        out@.len() == i,
                        forall|k: int|
                            0 <= k < i ==> (#[trigger] out@[k]).model() == items@[k].model(),
                {
                    assert(decreases_to!(items@ => items@[i as int]));
                    out.push(items[i].clone());
                }
                let r = Json::Array(out);
                assert(r.model()->Array_0 =~= self.model()->Array_0);
                r
            },
            Json::Object(members) => {
                let mut out: Vec<(String, Json)> = Vec::new();
                assert(decreases_to!(*self => self->Object_0));
                assert(decreases_to!(*self => self->Object_0@));
                for i in 0..members.len()
                    invariant
                        decreases_to!(*self => members@),
                        out@.len() == i,
                        forall|k: int|
                            0 <= k < i ==> (#[trigger] out@[k]).0@ == members@[k].0@
                                && out@[k].1.model() == members@[k].1.model(),
                {
                    assert(decreases_to!(members@ => members@[i as int]));
                    assert(decreases_to!(members@[i as int] => members@[i as int].1));
                    out.push((members[i].0.clone(), members[i].1.clone()));
                }
                let r = Json::Object(out);
                assert(r.model()->Object_0 =~= self.model()->Object_0);
                r
            },
        }
    }
}

// ---------------------------------------------------------------- what documents say

/// A member is found by its name, the first of that name; nothing but an object has members.
pub proof fn law_which_member_is_found(
    members: Seq<(Seq<char>, JsonModel)>,
    key: Seq<char>,
    i: int,
    v: JsonModel,
)
    ensures
        0 <= i < members.len() && members[i].0 == key && (forall|j: int|
            0 <= j < i ==> (#[trigger] members[j]).0 != key) ==> JsonModel::Object(members).get(key)
            == Some(members[i].1),
        (forall|j: int| 0 <= j < members.len() ==> (#[trigger] members[j]).0 != key)
            ==> JsonModel::Object(members).get(key) is None,
        !(v is Object) ==> v.get(key) is None,
{
    if 0 <= i < members.len() && members[i].0 == key && (forall|j: int|
        0 <= j < i ==> (#[trigger] members[j]).0 != key) {
        lemma_member_found(members, key, 0, i);
    }
    if forall|j: int| 0 <= j < members.len() ==> (#[trigger] members[j]).0 != key {
        lemma_member_missing(members, key, 0);
    }
}

proof fn lemma_member_found(
    members: Seq<(Seq<char>, JsonModel)>,
    key: Seq<char>,
    from: int,
    i: int,
)
    requires
        0 <= from <= i < members.len(),
        members[i].0 == key,
        forall|j: int| from <= j < i ==> (#[trigger] members[j]).0 != key,
    ensures
        member_from(members, key, from) == Some(members[i].1),
    decreases i - from,
{
    if from < i {
        assert(members[from].0 != key);
        lemma_member_found(members, key, from + 1, i);
    }
}

proof fn lemma_member_missing(members: Seq<(Seq<char>, JsonModel)>, key: Seq<char>, from: int)
    requires
        forall|j: int| 0 <= j < members.len() ==> (#[trigger] members[j]).0 != key,
    ensures
        member_from(members, key, from) is None,
    decreases members.len() - from,
{
    if 0 <= from < members.len() {
        assert(members[from].0 != key);
        lemma_member_missing(members, key, from + 1);
    }
}

/// A string member is a member that is a string, and a flag is set only where the member is true.
pub proof fn law_what_a_member_says(v: JsonModel, key: Seq<char>, t: Seq<char>)
    ensures
        v.str_at(key) == Some(t) <==> v.get(key) == Some(JsonModel::Text(t)),
        v.str_at(key) is None <==> !(v.get(key) is Some && v.get(key)->0 is Text),
        v.flag_at(key) <==> v.get(key) == Some(JsonModel::Bool(true)),
{
}

/// Each kind of value is read as its own kind only.
pub proof fn law_values_are_read_as_what_they_are(v: JsonModel)
    ensures
        v matches JsonModel::Text(t) ==> v.as_str() == Some(t),
        !(v is Text) ==> v.as_str() is None,
        v matches JsonModel::Bool(b) ==> v.as_bool() == Some(b),
        !(v is Bool) ==> v.as_bool() is None,
        v matches JsonModel::Array(items) ==> v.as_array() == Some(items),
        !(v is Array) ==> v.as_array() is None,
{
}

/// How plain values are written.
pub proof fn law_how_plain_values_are_written(n: Seq<char>, c: char)
    ensures
        compact(JsonModel::Null) == seq!['n', 'u', 'l', 'l'],
        compact(JsonModel::Bool(true)) == seq!['t', 'r', 'u', 'e'],
        compact(JsonModel::Bool(false)) == seq!['f', 'a', 'l', 's', 'e'],
        compact(JsonModel::Number(n)) == n,
        compact(JsonModel::Text(Seq::empty())) == seq!['"', '"'],
        c as int >= 32 && c != '"' && c != '\\' ==> compact(JsonModel::Text(seq![c])) == seq![
            '"',
            c,
            '"',
        ],
        compact(JsonModel::Text(seq!['"'])) == seq!['"', '\\', '"', '"'],
        compact(JsonModel::Text(seq!['\\'])) == seq!['"', '\\', '\\', '"'],
        compact(JsonModel::Text(seq!['\n'])) == seq!['"', '\\', 'n', '"'],
        compact(JsonModel::Text(seq!['\t'])) == seq!['"', '\\', 't', '"'],
        compact(JsonModel::Text(seq!['\r'])) == seq!['"', '\\', 'r', '"'],
{
    reveal_strlit("null");
    reveal_strlit("true");
    reveal_strlit("false");
    assert("null"@ =~= seq!['n', 'u', 'l', 'l']);
    assert("true"@ =~= seq!['t', 'r', 'u', 'e']);
    assert("false"@ =~= seq!['f', 'a', 'l', 's', 'e']);
    assert(json_quoted(Seq::empty()) =~= seq!['"', '"']) by {
        reveal(json_quoted);
        assert(lists::gathered(Seq::<char>::empty(), |c: char| escaped(c)) =~= Seq::empty());
    }
    lemma_one_quoted(c);
    lemma_one_quoted('"');
    lemma_one_quoted('\\');
    lemma_one_quoted('\n');
    lemma_one_quoted('\t');
    lemma_one_quoted('\r');
    assert(json_quoted(seq!['"']) =~= seq!['"', '\\', '"', '"']);
    assert(json_quoted(seq!['\\']) =~= seq!['"', '\\', '\\', '"']);
    assert(json_quoted(seq!['\n']) =~= seq!['"', '\\', 'n', '"']);
    assert(json_quoted(seq!['\t']) =~= seq!['"', '\\', 't', '"']);
    assert(json_quoted(seq!['\r']) =~= seq!['"', '\\', 'r', '"']);
    if c as int >= 32 && c != '"' && c != '\\' {
        assert(json_quoted(seq![c]) =~= seq!['"', c, '"']);
    }
}

proof fn lemma_one_quoted(c: char)
    ensures
        json_quoted(seq![c]) == seq!['"'] + escaped(c) + seq!['"'],
{
    reveal(json_quoted);
    let f = |c: char| escaped(c);
    let s = seq![c];
    assert(s.drop_last() =~= Seq::empty());
    assert(lists::gathered(s.drop_last(), f) =~= Seq::empty());
    assert(lists::gathered(s, f) =~= escaped(c));
}

/// What a text is written as follows from its characters one by one.
pub proof fn law_texts_are_written_character_by_character(s: Seq<char>, c: char)
    ensures
        compact(JsonModel::Text(s.push(c))) == compact(JsonModel::Text(s)).drop_last() + compact(
            JsonModel::Text(seq![c]),
        ).skip(1),
{
    reveal(json_quoted);
    let f = |c: char| escaped(c);
    lemma_one_quoted(c);
    assert(s.push(c).drop_last() =~= s);
    assert(lists::gathered(s.push(c), f) == lists::gathered(s, f) + escaped(c));
    assert(json_quoted(s).drop_last() =~= seq!['"'] + lists::gathered(s, f));
    assert(json_quoted(seq![c]).skip(1) =~= escaped(c) + seq!['"']);
    assert(json_quoted(s.push(c)) =~= json_quoted(s).drop_last() + json_quoted(seq![c]).skip(1));
}

/// A list is written with its items in brackets and a comma between any two.
pub proof fn law_how_lists_are_written(items: Seq<JsonModel>, v: JsonModel)
    ensures
        items.len() == 0 ==> compact(JsonModel::Array(items)) == seq!['[', ']'],
        compact(JsonModel::Array(seq![v])) == seq!['['] + compact(v) + seq![']'],
        items.len() > 0 ==> compact(JsonModel::Array(items.push(v))) == compact(
            JsonModel::Array(items),
        ).drop_last() + seq![','] + compact(v) + seq![']'],
{
    reveal_strlit("[");
    reveal_strlit("]");
    reveal_strlit(",");
    assert("["@ =~= seq!['['] && "]"@ =~= seq![']'] && ","@ =~= seq![',']);
    let more = items.push(v);
    assert(item_texts(more) =~= item_texts(items).push(compact(v)));
    assert(item_texts(more).drop_last() =~= item_texts(items));
    assert(item_texts(seq![v]) =~= seq![compact(v)]);
    if items.len() == 0 {
        assert(compact(JsonModel::Array(items)) =~= seq!['[', ']']);
    } else {
        assert(compact(JsonModel::Array(items)).drop_last() =~= "["@ + text::joined(
            item_texts(items),
            ","@,
        ));
        assert(compact(JsonModel::Array(more)) =~= compact(JsonModel::Array(items)).drop_last()
            + seq![','] + compact(v) + seq![']']);
    }
}

/// An object is written with its members in braces, each as its name, a colon and its value, and
/// a comma between any two.
pub proof fn law_how_objects_are_written(
    members: Seq<(Seq<char>, JsonModel)>,
    key: Seq<char>,
    v: JsonModel,
)
    ensures
        members.len() == 0 ==> compact(JsonModel::Object(members)) == seq!['{', '}'],
        compact(JsonModel::Object(seq![(key, v)])) == seq!['{'] + compact(JsonModel::Text(key))
            + seq![':'] + compact(v) + seq!['}'],
        members.len() > 0 ==> compact(JsonModel::Object(members.push((key, v)))) == compact(
            JsonModel::Object(members),
        ).drop_last() + seq![','] + compact(JsonModel::Text(key)) + seq![':'] + compact(v) + seq![
            '}',
        ],
{
    reveal_strlit("{");
    reveal_strlit("}");
    reveal_strlit(",");
    reveal_strlit(":");
    assert("{"@ =~= seq!['{'] && "}"@ =~= seq!['}'] && ","@ =~= seq![','] && ":"@ =~= seq![':']);
    let more = members.push((key, v));
    let one = json_quoted(key) + ":"@ + compact(v);
    assert(member_texts(more) =~= member_texts(members).push(one));
    assert(member_texts(more).drop_last() =~= member_texts(members));
    assert(member_texts(seq![(key, v)]) =~= seq![one]);
    assert(compact(JsonModel::Object(seq![(key, v)])) =~= seq!['{'] + compact(JsonModel::Text(key))
        + seq![':'] + compact(v) + seq!['}']);
    if members.len() == 0 {
        assert(compact(JsonModel::Object(members)) =~= seq!['{', '}']);
    } else {
        assert(compact(JsonModel::Object(members)).drop_last() =~= "{"@ + text::joined(
            member_texts(members),
            ","@,
        ));
        assert(compact(JsonModel::Object(more)) =~= compact(JsonModel::Object(members)).drop_last()
            + seq![','] + compact(JsonModel::Text(key)) + seq![':'] + compact(v) + seq!['}']);
    }
}

/// What a text is read as: nothing where it is no document, else what stands between the white
/// space at its ends, an object or an array of what its parts are read as, or a plain value.
pub proof fn law_what_a_document_is_read_as(text: Seq<char>)
    ensures
        parsed(text) is Some <==> json_valid(text),
        json_valid(text) ==> ({
            let t = text::trimmed(text);
            let v = parsed(text)->0;
            let bare = text::trimmed_of(t, " \n\t\r"@);
            match (json_members(t), json_items(t), json_string(t)) {
                (Some(ms), _, _) => v is Object && v->Object_0.len() == ms.len() && forall|i: int|
                    0 <= i < ms.len() ==> (#[trigger] v->Object_0[i]).0 == ms[i].0 && (
                    ms[i].1.len() < t.len() ==> v->Object_0[i].1 == tree_of(ms[i].1)),
                (None, Some(xs), _) => v is Array && v->Array_0.len() == xs.len() && forall|i: int|
                    0 <= i < xs.len() && xs[i].len() < t.len() ==> #[trigger] v->Array_0[i]
                        == tree_of(xs[i]),
                (None, None, Some(s)) => v == JsonModel::Text(s),
                (None, None, None) => {
                    &&& bare == "true"@ ==> v == JsonModel::Bool(true)
                    &&& bare == "false"@ ==> v == JsonModel::Bool(false)
                    &&& bare != "true"@ && bare != "false"@ && t == "null"@ ==> v == JsonModel::Null
                    &&& bare != "true"@ && bare != "false"@ && t != "null"@ ==> v
                        == JsonModel::Number(t)
                },
            }
        }),
{
    reveal_strlit("true");
    reveal_strlit("false");
    assert("true"@.len() == 4 && "false"@.len() == 5);
}

} // verus!
