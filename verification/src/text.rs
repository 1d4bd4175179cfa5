//! Strings as sequences of characters: the operations the rest of the library reads text with.
//!
//! Each operation comes twice: a spec function on `Seq<char>` that says what it means, and an
//! executable function on `&str` proved to compute exactly that.

use vstd::prelude::*;
use vstd::utf8::{encode_utf8, is_ascii_chars};

verus! {

// ---------------------------------------------------------------- characters and conversion

/// `String::push` appends one character.
pub assume_specification[ String::push ](s: &mut String, c: char)
    ensures
        final(s)@ == old(s)@.push(c),
;

/// Unicode's `White_Space` property.
pub open spec fn is_white(c: char) -> bool {
    ||| '\u{9}' <= c && c <= '\u{d}'
    ||| c == ' '
    ||| c == '\u{85}'
    ||| c == '\u{a0}'
    ||| c == '\u{1680}'
    ||| '\u{2000}' <= c && c <= '\u{200a}'
    ||| c == '\u{2028}'
    ||| c == '\u{2029}'
    ||| c == '\u{202f}'
    ||| c == '\u{205f}'
    ||| c == '\u{3000}'
}

/// Is this a white-space character?
pub fn white(c: char) -> (r: bool)
    ensures
        r == is_white(c),
{
    ('\u{9}' <= c && c <= '\u{d}') || c == ' ' || c == '\u{85}' || c == '\u{a0}' || c == '\u{1680}' || (
    '\u{2000}' <= c && c <= '\u{200a}') || c == '\u{2028}' || c == '\u{2029}' || c == '\u{202f}' || c
        == '\u{205f}' || c == '\u{3000}'
}

/// The characters of a string.
pub fn chars_of(s: &str) -> (r: Vec<char>)
    ensures
        r@ == s@,
{
    let mut out: Vec<char> = Vec::new();
    for c in it: s.chars()
        invariant
            it.seq() == s@,
            out@ == it.seq().take(it.index()),
    {
        out.push(c);
        assert(out@ =~= it.seq().take(it.index() + 1));
    }
    assert(out@ =~= s@);
    out
}

/// The string made of the characters from `from` up to `to`.
pub fn string_range(cs: &Vec<char>, from: usize, to: usize) -> (r: String)
    requires
        from <= to <= cs@.len(),
    ensures
        r@ == cs@.subrange(from as int, to as int),
{
    let mut out = String::new();
    let mut i: usize = from;
    while i < to
        invariant
            from <= i <= to <= cs@.len(),
            out@ == cs@.subrange(from as int, i as int),
        decreases to - i,
    {
        out.push(cs[i]);
        i = i + 1;
        assert(out@ =~= cs@.subrange(from as int, i as int));
    }
    out
}

/// Do two strings hold the same characters?
pub fn same(a: &str, b: &str) -> (r: bool)
    ensures
        r == (a@ == b@),
{
    let x = a.to_owned();
    let y = b.to_owned();
    x == y
}

/// How many bytes a text takes in UTF-8.
pub open spec fn byte_len_of(s: Seq<char>) -> nat {
    encode_utf8(s).len()
}

pub fn byte_len(s: &str) -> (r: usize)
    ensures
        r == byte_len_of(s@),
{
    s.as_bytes().len()
}

/// Byte `n` of a text is where a character begins, or the end.
pub open spec fn splits_at(s: Seq<char>, n: int) -> bool {
    vstd::utf8::is_char_boundary(encode_utf8(s), n)
}

/// The text that the first `n` bytes hold.
pub open spec fn first_bytes(s: Seq<char>, n: int) -> Seq<char> {
    vstd::utf8::decode_utf8(encode_utf8(s).subrange(0, n))
}

/// The text that the first `n` bytes hold is a beginning of the whole.
pub proof fn lemma_first_bytes(s: Seq<char>, n: int)
    requires
        splits_at(s, n),
    ensures
        first_bytes(s, n).len() <= s.len(),
        first_bytes(s, n) == s.take(first_bytes(s, n).len() as int),
{
    let bytes = encode_utf8(s);
    vstd::utf8::encode_utf8_valid_utf8(s);
    vstd::utf8::encode_utf8_decode_utf8(s);
    vstd::utf8::decode_utf8_split(bytes, n);
    let front = first_bytes(s, n);
    let rest = vstd::utf8::decode_utf8(bytes.subrange(n, bytes.len() as int));
    assert(s =~= front + rest);
    assert(s.take(front.len() as int) =~= front);
}

/// Is byte `n` of a text where a character begins, or the end?
pub fn can_split(s: &str, n: usize) -> (r: bool)
    ensures
        r == splits_at(s@, n as int),
{
    s.is_char_boundary(n)
}

/// The text that the first `n` bytes hold.
pub fn take_bytes(s: &str, n: usize) -> (r: String)
    requires
        splits_at(s@, n as int),
    ensures
        r@ == first_bytes(s@, n as int),
{
    let (front, _) = s.split_at(n);
    proof {
        vstd::utf8::encode_utf8_decode_utf8(front@);
    }
    front.to_owned()
}

// ---------------------------------------------------------------- searching

/// `p` stands in `s` at position `i`.
pub open spec fn occurs_at(s: Seq<char>, p: Seq<char>, i: int) -> bool {
    0 <= i && i + p.len() <= s.len() && s.subrange(i, i + p.len()) == p
}

/// `p` stands somewhere in `s`.
pub open spec fn has(s: Seq<char>, p: Seq<char>) -> bool {
    exists|i: int| occurs_at(s, p, i)
}

/// `s` starts with `p`.
pub open spec fn begins(s: Seq<char>, p: Seq<char>) -> bool {
    occurs_at(s, p, 0)
}

/// `s` ends with `p`.
pub open spec fn ends(s: Seq<char>, p: Seq<char>) -> bool {
    occurs_at(s, p, s.len() - p.len())
}

/// The first position at or after `from` where `p` stands in `s`.
pub open spec fn first_at(s: Seq<char>, p: Seq<char>, from: int) -> Option<int>
    decreases s.len() - from + 1,
{
    if from < 0 || from + p.len() > s.len() {
        None
    } else if occurs_at(s, p, from) {
        Some(from)
    } else {
        first_at(s, p, from + 1)
    }
}

pub proof fn lemma_first_at(s: Seq<char>, p: Seq<char>, from: int)
    requires
        0 <= from,
    ensures
        match first_at(s, p, from) {
            Some(i) => from <= i && occurs_at(s, p, i) && (forall|j: int|
                from <= j < i ==> !occurs_at(s, p, j)),
            None => forall|j: int| from <= j ==> !occurs_at(s, p, j),
        },
    decreases s.len() - from + 1,
{
    if from + p.len() > s.len() || occurs_at(s, p, from) {
    } else {
        lemma_first_at(s, p, from + 1);
    }
}

/// Does `ps` stand in `cs` at position `i`?
pub fn stands_at(cs: &Vec<char>, ps: &Vec<char>, i: usize) -> (r: bool)
    ensures
        r == occurs_at(cs@, ps@, i as int),
{
    if i > cs.len() || ps.len() > cs.len() - i {
        return false;
    }
    let mut k: usize = 0;
    while k < ps.len()
        invariant
            i + ps.len() <= cs.len(),
            k <= ps.len(),
            forall|j: int| 0 <= j < k ==> cs@[i + j] == ps@[j],
        decreases ps.len() - k,
    {
        if cs[i + k] != ps[k] {
            assert(cs@.subrange(i as int, i + ps@.len())[k as int] != ps@[k as int]);
            return false;
        }
        k = k + 1;
    }
    assert(cs@.subrange(i as int, i + ps@.len()) =~= ps@);
    true
}

/// The first position at or after `from` where `ps` stands in `cs`.
pub fn find_from(cs: &Vec<char>, ps: &Vec<char>, from: usize) -> (r: Option<usize>)
    requires
        from <= cs@.len(),
    ensures
        match (r, first_at(cs@, ps@, from as int)) {
            (Some(i), Some(j)) => i == j,
            (None, None) => true,
            _ => false,
        },
{
    let mut i: usize = from;
    while ps.len() <= cs.len() - i
        invariant
            from <= i <= cs@.len(),
            first_at(cs@, ps@, from as int) == first_at(cs@, ps@, i as int),
        decreases cs.len() - i,
    {
        if stands_at(cs, ps, i) {
            return Some(i);
        }
        if i == cs.len() {
            assert(first_at(cs@, ps@, i + 1) is None);
            return None;
        }
        i = i + 1;
    }
    None
}

pub fn contains(s: &str, p: &str) -> (r: bool)
    ensures
        r == has(s@, p@),
{
    let cs = chars_of(s);
    let ps = chars_of(p);
    let found = find_from(&cs, &ps, 0);
    proof {
        lemma_first_at(s@, p@, 0);
        if has(s@, p@) {
            let i = choose|i: int| occurs_at(s@, p@, i);
            assert(occurs_at(s@, p@, i));
        }
    }
    found.is_some()
}

pub fn contains_char(s: &str, c: char) -> (r: bool)
    ensures
        r == s@.contains(c),
{
    let cs = chars_of(s);
    for i in 0..cs.len()
        invariant
            cs@ == s@,
            forall|j: int| 0 <= j < i ==> cs@[j] != c,
    {
        if cs[i] == c {
            return true;
        }
    }
    false
}

pub fn starts_with(s: &str, p: &str) -> (r: bool)
    ensures
        r == begins(s@, p@),
{
    stands_at(&chars_of(s), &chars_of(p), 0)
}

pub fn ends_with(s: &str, p: &str) -> (r: bool)
    ensures
        r == ends(s@, p@),
{
    let cs = chars_of(s);
    let ps = chars_of(p);
    if ps.len() > cs.len() {
        return false;
    }
    stands_at(&cs, &ps, cs.len() - ps.len())
}

/// What follows the prefix `p`, where `s` starts with it.
pub open spec fn after_prefix(s: Seq<char>, p: Seq<char>) -> Option<Seq<char>> {
    if begins(s, p) {
        Some(s.skip(p.len() as int))
    } else {
        None
    }
}

pub fn strip_prefix(s: &str, p: &str) -> (r: Option<String>)
    ensures
        r.deep_view() == after_prefix(s@, p@),
{
    let cs = chars_of(s);
    let ps = chars_of(p);
    if stands_at(&cs, &ps, 0) {
        let rest = string_range(&cs, ps.len(), cs.len());
        assert(rest@ =~= s@.skip(p@.len() as int));
        Some(rest)
    } else {
        None
    }
}

/// How often `p` stands in `s`, counting from the left without overlap.
pub open spec fn count_from(s: Seq<char>, p: Seq<char>, from: int) -> nat
    decreases s.len() - from,
{
    if p.len() == 0 || from < 0 || from + p.len() > s.len() {
        0
    } else if occurs_at(s, p, from) {
        1 + count_from(s, p, from + p.len())
    } else {
        count_from(s, p, from + 1)
    }
}

pub open spec fn count_of(s: Seq<char>, p: Seq<char>) -> nat {
    count_from(s, p, 0)
}

pub fn count(s: &str, p: &str) -> (r: usize)
    requires
        p@.len() > 0,
    ensures
        r == count_of(s@, p@),
{
    let cs = chars_of(s);
    let ps = chars_of(p);
    let mut i: usize = 0;
    let mut n: usize = 0;
    while ps.len() <= cs.len() - i
        invariant
            cs@ == s@,
            ps@ == p@,
            ps@.len() > 0,
            i <= cs@.len(),
            n <= i,
            n + count_from(s@, p@, i as int) == count_of(s@, p@),
        decreases cs.len() - i,
    {
        if stands_at(&cs, &ps, i) {
            n = n + 1;
            i = i + ps.len();
        } else {
            i = i + 1;
        }
    }
    n
}

// ---------------------------------------------------------------- trimming

/// The characters of `set`.
pub open spec fn among(set: Seq<char>) -> spec_fn(char) -> bool {
    |c: char| set.contains(c)
}

/// The white-space characters.
pub open spec fn whites() -> spec_fn(char) -> bool {
    |c: char| is_white(c)
}

/// `s` without the characters at its start that satisfy `p`.
pub open spec fn front_trimmed(s: Seq<char>, p: spec_fn(char) -> bool) -> Seq<char>
    decreases s.len(),
{
    if s.len() > 0 && p(s[0]) {
        front_trimmed(s.skip(1), p)
    } else {
        s
    }
}

/// `s` without the characters at its end that satisfy `p`.
pub open spec fn back_trimmed(s: Seq<char>, p: spec_fn(char) -> bool) -> Seq<char>
    decreases s.len(),
{
    if s.len() > 0 && p(s.last()) {
        back_trimmed(s.drop_last(), p)
    } else {
        s
    }
}

/// `s` without white space at either end.
pub open spec fn trimmed(s: Seq<char>) -> Seq<char> {
    back_trimmed(front_trimmed(s, whites()), whites())
}

/// `s` without the characters of `set` at either end.
pub open spec fn trimmed_of(s: Seq<char>, set: Seq<char>) -> Seq<char> {
    back_trimmed(front_trimmed(s, among(set)), among(set))
}

/// A text that starts with something other than white space is not blank.
pub proof fn lemma_trimmed_not_empty(s: Seq<char>)
    requires
        s.len() > 0,
        !is_white(s[0]),
    ensures
        trimmed(s).len() > 0,
    decreases s.len(),
{
    if s.len() > 1 && is_white(s.last()) {
        lemma_trimmed_not_empty(s.drop_last());
    }
}

/// Trimming the end of what has something behind it trims that.
pub proof fn lemma_back_trimmed_behind(a: Seq<char>, s: Seq<char>, p: spec_fn(char) -> bool)
    requires
        back_trimmed(s, p).len() > 0,
    ensures
        back_trimmed(a + s, p) == a + back_trimmed(s, p),
    decreases s.len(),
{
    assert((a + s).last() == s.last());
    if p(s.last()) {
        lemma_back_trimmed_behind(a, s.drop_last(), p);
        assert((a + s).drop_last() =~= a + s.drop_last());
    }
}

/// Of a text that is not blank the ends can be trimmed in either order.
pub proof fn lemma_trims_commute(s: Seq<char>)
    requires
        trimmed(s).len() > 0,
    ensures
        back_trimmed(s, whites()).len() > 0,
        front_trimmed(back_trimmed(s, whites()), whites()) == trimmed(s),
    decreases s.len(),
{
    if s.len() > 0 && is_white(s[0]) {
        let rest = s.skip(1);
        lemma_trims_commute(rest);
        assert(s =~= seq![s[0]] + rest);
        lemma_back_trimmed_behind(seq![s[0]], rest, whites());
        let v = back_trimmed(s, whites());
        assert(v.skip(1) =~= back_trimmed(rest, whites()));
    } else {
        lemma_back_trimmed(s, whites());
    }
}

/// Trimming the end leaves a beginning.
pub proof fn lemma_back_trimmed(s: Seq<char>, p: spec_fn(char) -> bool)
    ensures
        back_trimmed(s, p).len() <= s.len(),
        back_trimmed(s, p) == s.take(back_trimmed(s, p).len() as int),
    decreases s.len(),
{
    if s.len() > 0 && p(s.last()) {
        lemma_back_trimmed(s.drop_last(), p);
        let n = back_trimmed(s, p).len() as int;
        assert(s.drop_last().take(n) =~= s.take(n));
    } else {
        assert(s.take(s.len() as int) =~= s);
    }
}

/// Trimming at the start leaves a suffix.
pub proof fn lemma_front_trimmed(s: Seq<char>, p: spec_fn(char) -> bool)
    ensures
        front_trimmed(s, p).len() <= s.len(),
        front_trimmed(s, p) == s.skip(s.len() - front_trimmed(s, p).len()),
    decreases s.len(),
{
    if s.len() > 0 && p(s[0]) {
        lemma_front_trimmed(s.skip(1), p);
        let n = front_trimmed(s, p).len();
        assert(s.skip(1).skip(s.skip(1).len() - n) =~= s.skip(s.len() - n));
    } else {
        assert(s.skip(0) =~= s);
    }
}

/// Is `c` one of the characters of `set`?
fn one_of(set: &Vec<char>, c: char) -> (r: bool)
    ensures
        r == set@.contains(c),
{
    for i in 0..set.len()
        invariant
            forall|j: int| 0 <= j < i ==> set@[j] != c,
    {
        if set[i] == c {
            return true;
        }
    }
    false
}

pub fn trim_start(s: &str) -> (r: String)
    ensures
        r@ == front_trimmed(s@, whites()),
{
    let cs = chars_of(s);
    let mut i: usize = 0;
    assert(cs@.skip(0) =~= cs@);
    while i < cs.len() && white(cs[i])
        invariant
            i <= cs.len(),
            front_trimmed(cs@.skip(i as int), whites()) == front_trimmed(cs@, whites()),
        decreases cs.len() - i,
    {
        assert(cs@.skip(i as int).skip(1) =~= cs@.skip(i + 1));
        i = i + 1;
    }
    let r = string_range(&cs, i, cs.len());
    assert(r@ =~= cs@.skip(i as int));
    r
}

pub fn trim_end(s: &str) -> (r: String)
    ensures
        r@ == back_trimmed(s@, whites()),
{
    let cs = chars_of(s);
    let mut n: usize = cs.len();
    assert(cs@.take(n as int) =~= cs@);
    while n > 0 && white(cs[n - 1])
        invariant
            n <= cs.len(),
            back_trimmed(cs@.take(n as int), whites()) == back_trimmed(cs@, whites()),
        decreases n,
    {
        assert(cs@.take(n as int).drop_last() =~= cs@.take(n - 1));
        n = n - 1;
    }
    let r = string_range(&cs, 0, n);
    assert(r@ =~= cs@.take(n as int));
    r
}

pub fn trim(s: &str) -> (r: String)
    ensures
        r@ == trimmed(s@),
{
    let t = trim_start(s);
    trim_end(t.as_str())
}

/// Is there nothing but white space?
pub fn is_blank(s: &str) -> (r: bool)
    ensures
        r == (trimmed(s@).len() == 0),
{
    let t = trim(s);
    t.as_str().is_empty()
}

/// Drop the characters of `set` from the start.
pub fn trim_start_of(s: &str, set: &str) -> (r: String)
    ensures
        r@ == front_trimmed(s@, among(set@)),
{
    let cs = chars_of(s);
    let ps = chars_of(set);
    let mut i: usize = 0;
    assert(cs@.skip(0) =~= cs@);
    while i < cs.len() && one_of(&ps, cs[i])
        invariant
            i <= cs.len(),
            ps@ == set@,
            front_trimmed(cs@.skip(i as int), among(set@)) == front_trimmed(cs@, among(set@)),
        decreases cs.len() - i,
    {
        assert(cs@.skip(i as int).skip(1) =~= cs@.skip(i + 1));
        i = i + 1;
    }
    let r = string_range(&cs, i, cs.len());
    assert(r@ =~= cs@.skip(i as int));
    r
}

/// Drop the characters of `set` from the end.
pub fn trim_end_of(s: &str, set: &str) -> (r: String)
    ensures
        r@ == back_trimmed(s@, among(set@)),
{
    let cs = chars_of(s);
    let ps = chars_of(set);
    let mut n: usize = cs.len();
    assert(cs@.take(n as int) =~= cs@);
    while n > 0 && one_of(&ps, cs[n - 1])
        invariant
            n <= cs.len(),
            ps@ == set@,
            back_trimmed(cs@.take(n as int), among(set@)) == back_trimmed(cs@, among(set@)),
        decreases n,
    {
        assert(cs@.take(n as int).drop_last() =~= cs@.take(n - 1));
        n = n - 1;
    }
    let r = string_range(&cs, 0, n);
    assert(r@ =~= cs@.take(n as int));
    r
}

/// Drop the characters of `set` from both ends.
pub fn trim_of(s: &str, set: &str) -> (r: String)
    ensures
        r@ == trimmed_of(s@, set@),
{
    let t = trim_start_of(s, set);
    trim_end_of(t.as_str(), set)
}

/// The first `n` characters, or all of them where there are fewer.
pub open spec fn first_chars(s: Seq<char>, n: int) -> Seq<char> {
    if n < s.len() {
        s.take(n)
    } else {
        s
    }
}

pub fn take_chars(s: &str, n: usize) -> (r: String)
    ensures
        r@ == first_chars(s@, n as int),
{
    let cs = chars_of(s);
    if n < cs.len() {
        let r = string_range(&cs, 0, n);
        assert(r@ =~= s@.take(n as int));
        r
    } else {
        s.to_owned()
    }
}

// ---------------------------------------------------------------- splitting and joining

/// The first position at or after `from` that holds `c`, or the length of `s`.
pub open spec fn next_char(s: Seq<char>, c: char, from: int) -> int
    decreases s.len() - from,
{
    if from >= s.len() {
        s.len() as int
    } else if s[from] == c {
        from
    } else {
        next_char(s, c, from + 1)
    }
}

pub fn next_char_at(cs: &Vec<char>, c: char, from: usize) -> (r: usize)
    requires
        from <= cs@.len(),
    ensures
        r == next_char(cs@, c, from as int),
        from <= r <= cs@.len(),
        r < cs@.len() ==> cs@[r as int] == c,
{
    let mut i: usize = from;
    while i < cs.len() && cs[i] != c
        invariant
            from <= i <= cs@.len(),
            next_char(cs@, c, from as int) == next_char(cs@, c, i as int),
        decreases cs.len() - i,
    {
        i = i + 1;
    }
    i
}

pub proof fn lemma_next_char(s: Seq<char>, c: char, from: int)
    requires
        0 <= from <= s.len(),
    ensures
        from <= next_char(s, c, from) <= s.len(),
        next_char(s, c, from) < s.len() ==> s[next_char(s, c, from)] == c,
        forall|j: int| from <= j < next_char(s, c, from) ==> s[j] != c,
    decreases s.len() - from,
{
    if from < s.len() && s[from] != c {
        lemma_next_char(s, c, from + 1);
    }
}

/// Where the line that runs up to position `j` ends: a carriage return right before the line
/// feed belongs to the line ending.
pub open spec fn line_end(s: Seq<char>, i: int, j: int) -> int {
    if j < s.len() && i < j && s[j - 1] == '\r' {
        j - 1
    } else {
        j
    }
}

/// The lines of `s` from position `i` on.
pub open spec fn lines_from(s: Seq<char>, i: int) -> Seq<Seq<char>>
    decreases s.len() - i + 1,
{
    if i < 0 || i >= s.len() {
        Seq::empty()
    } else {
        let j = next_char(s, '\n', i);
        proof {
            lemma_next_char(s, '\n', i);
        }
        seq![s.subrange(i, line_end(s, i, j))] + lines_from(s, j + 1)
    }
}

/// The lines of a text, without their line endings (`\n` or `\r\n`).
pub open spec fn lines_of(s: Seq<char>) -> Seq<Seq<char>> {
    lines_from(s, 0)
}

/// A text without a line feed is one line, or none where it is empty.
pub proof fn lemma_one_line(s: Seq<char>)
    requires
        !s.contains('\n'),
    ensures
        lines_of(s) == (if s.len() == 0 {
            Seq::empty()
        } else {
            seq![s]
        }),
{
    if s.len() > 0 {
        lemma_next_char(s, '\n', 0);
        let j = next_char(s, '\n', 0);
        if j < s.len() {
            assert(s.contains(s[j]));
        }
        assert(s.subrange(0, s.len() as int) =~= s);
        assert(lines_from(s, j + 1) =~= Seq::empty());
        assert(lines_of(s) =~= seq![s]);
    }
}

/// The lines of a text without the white space round each.
pub open spec fn trimmed_lines(s: Seq<char>) -> Seq<Seq<char>> {
    lines_of(s).map_values(|l: Seq<char>| trimmed(l))
}

/// The empty line that a further line feed ends, behind a text that is empty or ends in one.
pub open spec fn blank_line_behind(s: Seq<char>) -> Seq<Seq<char>> {
    if s.len() == 0 || s.last() == '\n' {
        seq![Seq::empty()]
    } else {
        Seq::empty()
    }
}

proof fn lemma_next_char_behind(a: Seq<char>, s: Seq<char>, c: char, i: int)
    requires
        0 <= i <= s.len(),
    ensures
        next_char(a + s, c, a.len() + i) == a.len() + next_char(s, c, i),
    decreases s.len() - i,
{
    if i < s.len() && s[i] != c {
        lemma_next_char_behind(a, s, c, i + 1);
    }
}

proof fn lemma_lines_behind(a: Seq<char>, s: Seq<char>, i: int)
    requires
        0 <= i,
    ensures
        lines_from(a + s, a.len() + i) == lines_from(s, i),
    decreases s.len() - i + 1,
{
    if i < s.len() {
        lemma_next_char_behind(a, s, '\n', i);
        lemma_next_char(s, '\n', i);
        let j = next_char(s, '\n', i);
        lemma_lines_behind(a, s, j + 1);
        let all = a + s;
        assert(line_end(all, a.len() + i, a.len() + j) == a.len() + line_end(s, i, j));
        assert(all.subrange(a.len() + i, a.len() + line_end(s, i, j)) =~= s.subrange(
            i,
            line_end(s, i, j),
        ));
    }
}

/// White space at the end does not matter to what is left of a text.
proof fn lemma_trimmed_without_last(s: Seq<char>)
    requires
        s.len() > 0,
        is_white(s.last()),
    ensures
        trimmed(s.drop_last()) == trimmed(s),
    decreases s.len(),
{
    if is_white(s[0]) {
        if s.len() > 1 {
            lemma_trimmed_without_last(s.skip(1));
            assert(s.skip(1).drop_last() =~= s.drop_last().skip(1));
        } else {
            assert(s.skip(1) =~= Seq::empty());
            assert(s.drop_last() =~= Seq::empty());
        }
    }
}

/// Trimming a second time changes nothing.
pub proof fn lemma_trimmed_twice(s: Seq<char>)
    ensures
        trimmed(trimmed(s)) == trimmed(s),
    decreases s.len(),
{
    if s.len() > 0 && is_white(s[0]) {
        lemma_trimmed_twice(s.skip(1));
    } else if s.len() > 0 && is_white(s.last()) {
        lemma_trimmed_without_last(s);
        lemma_trimmed_twice(s.drop_last());
    }
}

proof fn lemma_lines_joined_from(s: Seq<char>, t: Seq<char>, i: int)
    requires
        0 <= i <= s.len(),
        i == s.len() ==> s.len() == 0 || s.last() == '\n',
    ensures
        lines_from(s + seq!['\n'] + t, i).map_values(|l: Seq<char>| trimmed(l)) == lines_from(
            s,
            i,
        ).map_values(|l: Seq<char>| trimmed(l)) + blank_line_behind(s) + trimmed_lines(t),
    decreases s.len() - i,
{
    let all = s + seq!['\n'] + t;
    let g = |l: Seq<char>| trimmed(l);
    lemma_next_char(all, '\n', i);
    let j = next_char(all, '\n', i);
    assert(all[s.len() as int] == '\n');
    assert(j <= s.len());
    lemma_lines_behind(s + seq!['\n'], t, 0);
    if i == s.len() {
        assert(all.subrange(i, i) =~= Seq::empty());
        assert(lines_from(all, i) =~= seq![Seq::<char>::empty()] + lines_of(t));
        assert(trimmed(Seq::<char>::empty()) =~= Seq::empty());
        assert(lines_from(all, i).map_values(g) =~= lines_from(s, i).map_values(g)
            + blank_line_behind(s) + trimmed_lines(t));
    } else {
        lemma_next_char(s, '\n', i);
        let k = next_char(s, '\n', i);
        if j < k {
            assert(all[j] == s[j]);
        } else if k < j {
            assert(all[k] == s[k]);
        }
        let line = all.subrange(i, line_end(all, i, j));
        let own = s.subrange(i, line_end(s, i, k));
        if j < s.len() {
            if j + 1 == s.len() {
                assert(s[s.len() - 1] == '\n');
            }
            lemma_lines_joined_from(s, t, j + 1);
            assert(line =~= own);
            assert(lines_from(all, i) =~= seq![line] + lines_from(all, j + 1));
            assert(lines_from(s, i) =~= seq![own] + lines_from(s, j + 1));
            let rest = lines_from(all, j + 1);
            let own_rest = lines_from(s, j + 1);
            assert((seq![line] + rest).map_values(g) =~= seq![g(line)] + rest.map_values(g));
            assert((seq![own] + own_rest).map_values(g) =~= seq![g(line)] + own_rest.map_values(g));
        } else {
            assert(own =~= s.subrange(i, s.len() as int));
            if all[j - 1] == '\r' {
                assert(own.drop_last() =~= line);
                lemma_trimmed_without_last(own);
            } else {
                assert(own =~= line);
            }
            assert(s[s.len() - 1] != '\n');
            assert(lines_from(s, k + 1) =~= Seq::empty());
            assert(lines_from(s, i) =~= seq![own]);
            assert(lines_from(all, i) =~= seq![line] + lines_of(t));
            assert((seq![line] + lines_of(t)).map_values(g) =~= seq![g(line)] + trimmed_lines(t));
            assert(seq![own].map_values(g) =~= seq![g(line)]);
        }
        assert(lines_from(all, i).map_values(g) =~= lines_from(s, i).map_values(g)
            + blank_line_behind(s) + trimmed_lines(t));
    }
}

/// The lines of two texts with a line feed between them are the lines of each, but for white
/// space and an empty line.
pub proof fn lemma_lines_joined(s: Seq<char>, t: Seq<char>)
    ensures
        trimmed_lines(s + seq!['\n'] + t) == trimmed_lines(s) + blank_line_behind(s)
            + trimmed_lines(t),
{
    lemma_lines_joined_from(s, t, 0);
}

pub fn lines(s: &str) -> (r: Vec<String>)
    ensures
        r.deep_view() == lines_of(s@),
{
    let cs = chars_of(s);
    let mut out: Vec<String> = Vec::new();
    let mut i: usize = 0;
    assert(out.deep_view() + lines_from(s@, 0) =~= lines_of(s@));
    while i < cs.len()
        invariant
            cs@ == s@,
            i <= cs.len(),
            out.deep_view() + lines_from(s@, i as int) == lines_of(s@),
        decreases cs.len() - i,
    {
        let j = next_char_at(&cs, '\n', i);
        let ghost before = out.deep_view();
        let end: usize = if j < cs.len() && i < j && cs[j - 1] == '\r' {
            j - 1
        } else {
            j
        };
        out.push(string_range(&cs, i, end));
        assert(out.deep_view() =~= before.push(s@.subrange(i as int, end as int)));
        assert(before + (seq![s@.subrange(i as int, end as int)] + lines_from(s@, j + 1))
            =~= out.deep_view() + lines_from(s@, j + 1));
        if j == cs.len() {
            assert(out.deep_view() + lines_from(s@, j + 1) =~= out.deep_view());
            assert(lines_from(s@, j as int) =~= Seq::empty());
            i = j;
        } else {
            i = j + 1;
        }
    }
    assert(out.deep_view() + lines_from(s@, i as int) =~= out.deep_view());
    out
}

/// The parts of `s` between the separators `c`, from position `i` on.
pub open spec fn parts_from(s: Seq<char>, c: char, i: int) -> Seq<Seq<char>>
    decreases s.len() - i,
{
    let j = next_char(s, c, i);
    if 0 <= i <= j < s.len() {
        seq![s.subrange(i, j)] + parts_from(s, c, j + 1)
    } else {
        seq![s.skip(i)]
    }
}

/// The parts of `s` between the separators `c`; one part more than there are separators.
pub open spec fn parts_of(s: Seq<char>, c: char) -> Seq<Seq<char>> {
    parts_from(s, c, 0)
}

/// A text has at least one part.
pub proof fn lemma_parts_not_empty(s: Seq<char>, c: char)
    ensures
        parts_of(s, c).len() >= 1,
{
}

/// The parts of a text that nothing is separated in: the text itself.
pub proof fn law_a_text_without_separators_is_one_part(s: Seq<char>, c: char)
    requires
        !s.contains(c),
    ensures
        parts_of(s, c) == seq![s],
{
    lemma_next_char(s, c, 0);
    let j = next_char(s, c, 0);
    if j < s.len() {
        assert(s.contains(s[j]));
    }
    assert(s.skip(0) =~= s);
}

/// The parts of two texts with a separator between them are those of the one, then those of the
/// other.
pub proof fn law_parts_of_a_joined_text(s: Seq<char>, t: Seq<char>, c: char)
    ensures
        parts_of(s + seq![c] + t, c) == parts_of(s, c) + parts_of(t, c),
{
    lemma_parts_joined_from(s, t, c, 0);
}

proof fn lemma_parts_behind(a: Seq<char>, s: Seq<char>, c: char, i: int)
    requires
        0 <= i <= s.len(),
    ensures
        parts_from(a + s, c, a.len() + i) == parts_from(s, c, i),
    decreases s.len() - i,
{
    lemma_next_char(s, c, i);
    lemma_next_char_behind(a, s, c, i);
    let j = next_char(s, c, i);
    if j < s.len() {
        lemma_parts_behind(a, s, c, j + 1);
        assert((a + s).subrange(a.len() + i, a.len() + j) =~= s.subrange(i, j));
    } else {
        assert((a + s).skip(a.len() + i) =~= s.skip(i));
    }
}

proof fn lemma_next_char_ahead(s: Seq<char>, t: Seq<char>, c: char, i: int)
    requires
        0 <= i <= s.len(),
    ensures
        next_char(s + seq![c] + t, c, i) == next_char(s, c, i),
    decreases s.len() - i,
{
    let all = s + seq![c] + t;
    if i < s.len() {
        assert(all[i] == s[i]);
        if s[i] != c {
            lemma_next_char_ahead(s, t, c, i + 1);
        }
    } else {
        assert(all[i] == c);
    }
}

proof fn lemma_parts_joined_from(s: Seq<char>, t: Seq<char>, c: char, i: int)
    requires
        0 <= i <= s.len(),
    ensures
        parts_from(s + seq![c] + t, c, i) == parts_from(s, c, i) + parts_of(t, c),
    decreases s.len() - i,
{
    let all = s + seq![c] + t;
    lemma_next_char(s, c, i);
    lemma_next_char_ahead(s, t, c, i);
    let j = next_char(s, c, i);
    assert(all.subrange(i, j) =~= s.subrange(i, j));
    if j < s.len() {
        lemma_parts_joined_from(s, t, c, j + 1);
        assert(parts_from(all, c, i) =~= parts_from(s, c, i) + parts_of(t, c));
    } else {
        lemma_parts_behind(s + seq![c], t, c, 0);
        assert(s.subrange(i, j) =~= s.skip(i));
        assert(parts_from(all, c, i) =~= parts_from(s, c, i) + parts_of(t, c));
    }
}

/// A text that holds the separator has at least two parts.
pub proof fn lemma_two_parts(s: Seq<char>, c: char)
    requires
        s.contains(c),
    ensures
        parts_of(s, c).len() >= 2,
{
    let k = choose|k: int| 0 <= k < s.len() && s[k] == c;
    lemma_next_char(s, c, 0);
    let j = next_char(s, c, 0);
    if j >= s.len() {
        assert(s[k] != c);
    }
    assert(parts_from(s, c, j + 1).len() >= 1);
}

pub fn split(s: &str, c: char) -> (r: Vec<String>)
    ensures
        r.deep_view() == parts_of(s@, c),
        r@.len() >= 1,
{
    let cs = chars_of(s);
    let mut out: Vec<String> = Vec::new();
    let mut i: usize = 0;
    let mut j: usize = next_char_at(&cs, c, 0);
    assert(out.deep_view() + parts_from(s@, c, 0) =~= parts_of(s@, c));
    while j < cs.len()
        invariant
            cs@ == s@,
            i <= j <= cs.len(),
            j == next_char(s@, c, i as int),
            out.deep_view() + parts_from(s@, c, i as int) == parts_of(s@, c),
        decreases cs.len() - j,
    {
        let ghost before = out.deep_view();
        out.push(string_range(&cs, i, j));
        assert(out.deep_view() =~= before.push(s@.subrange(i as int, j as int)));
        assert(before + (seq![s@.subrange(i as int, j as int)] + parts_from(s@, c, j + 1))
            =~= out.deep_view() + parts_from(s@, c, j + 1));
        i = j + 1;
        j = next_char_at(&cs, c, i);
    }
    let ghost before = out.deep_view();
    out.push(string_range(&cs, i, cs.len()));
    assert(s@.subrange(i as int, s@.len() as int) =~= s@.skip(i as int));
    assert(out.deep_view() =~= before + seq![s@.skip(i as int)]);
    out
}

/// The position of the first white-space character, or the length of `s`.
pub open spec fn word_end(s: Seq<char>) -> int
    decreases s.len(),
{
    if s.len() == 0 || is_white(s[0]) {
        0
    } else {
        1 + word_end(s.skip(1))
    }
}

pub proof fn lemma_word_end(s: Seq<char>)
    ensures
        0 <= word_end(s) <= s.len(),
        s.len() > 0 && !is_white(s[0]) ==> word_end(s) > 0,
        word_end(s) < s.len() ==> is_white(s[word_end(s)]),
        forall|j: int| 0 <= j < word_end(s) ==> !is_white(#[trigger] s[j]),
    decreases s.len(),
{
    if s.len() > 0 && !is_white(s[0]) {
        lemma_word_end(s.skip(1));
        assert forall|j: int| 0 <= j < word_end(s) implies !is_white(#[trigger] s[j]) by {
            if j > 0 {
                assert(s.skip(1)[j - 1] == s[j]);
            }
        }
        if word_end(s) < s.len() {
            assert(s.skip(1)[word_end(s.skip(1))] == s[word_end(s)]);
        }
    }
}

/// What trimming leaves starts with a word.
pub proof fn lemma_trimmed_word(s: Seq<char>)
    ensures
        ({
            let t = front_trimmed(s, whites());
            &&& t.len() <= s.len()
            &&& t.len() > 0 ==> !is_white(t[0]) && 0 < word_end(t) <= t.len()
        }),
    decreases s.len(),
{
    if s.len() > 0 && is_white(s[0]) {
        lemma_trimmed_word(s.skip(1));
    } else {
        lemma_word_end(s);
    }
}

/// The runs of characters that white space separates.
pub open spec fn words_of(s: Seq<char>) -> Seq<Seq<char>>
    decreases s.len(),
{
    let t = front_trimmed(s, whites());
    if t.len() == 0 {
        Seq::empty()
    } else {
        proof {
            lemma_trimmed_word(s);
        }
        seq![t.take(word_end(t))] + words_of(t.skip(word_end(t)))
    }
}

/// The position of the first white-space character, or the length.
pub fn first_white(cs: &Vec<char>) -> (r: usize)
    ensures
        r == word_end(cs@),
        r <= cs@.len(),
{
    let r = word_end_at(cs, 0);
    assert(cs@.skip(0) =~= cs@);
    r
}

/// The position of the first white-space character at or after `from`, or the length.
fn word_end_at(cs: &Vec<char>, from: usize) -> (r: usize)
    requires
        from <= cs@.len(),
    ensures
        r == from + word_end(cs@.skip(from as int)),
        from <= r <= cs@.len(),
{
    let mut i: usize = from;
    while i < cs.len() && !white(cs[i])
        invariant
            from <= i <= cs@.len(),
            from + word_end(cs@.skip(from as int)) == i + word_end(cs@.skip(i as int)),
        decreases cs.len() - i,
    {
        assert(cs@.skip(i as int).skip(1) =~= cs@.skip(i + 1));
        i = i + 1;
    }
    i
}

pub fn words(s: &str) -> (r: Vec<String>)
    ensures
        r.deep_view() == words_of(s@),
{
    let cs = chars_of(s);
    let mut out: Vec<String> = Vec::new();
    let mut i: usize = 0;
    assert(s@.skip(0) =~= s@);
    assert(out.deep_view() + words_of(s@) =~= words_of(s@));
    while i < cs.len()
        invariant
            cs@ == s@,
            i <= cs.len(),
            out.deep_view() + words_of(s@.skip(i as int)) == words_of(s@),
        decreases cs.len() - i,
    {
        let ghost rest = s@.skip(i as int);
        if white(cs[i]) {
            assert(rest.skip(1) =~= s@.skip(i + 1));
            assert(front_trimmed(rest, whites()) == front_trimmed(rest.skip(1), whites()));
            proof {
                lemma_front_trimmed(rest.skip(1), whites());
            }
            i = i + 1;
        } else {
            let j = word_end_at(&cs, i);
            proof {
                lemma_word_end(rest);
            }
            let ghost before = out.deep_view();
            out.push(string_range(&cs, i, j));
            assert(s@.subrange(i as int, j as int) =~= rest.take(word_end(rest)));
            assert(rest.skip(word_end(rest)) =~= s@.skip(j as int));
            assert(out.deep_view() =~= before.push(rest.take(word_end(rest))));
            assert(before + (seq![rest.take(word_end(rest))] + words_of(s@.skip(j as int)))
                =~= out.deep_view() + words_of(s@.skip(j as int)));
            i = j;
        }
    }
    assert(s@.skip(i as int) =~= Seq::empty());
    assert(out.deep_view() + words_of(s@.skip(i as int)) =~= out.deep_view());
    out
}

/// The parts with `sep` between each two.
pub open spec fn joined(parts: Seq<Seq<char>>, sep: Seq<char>) -> Seq<char>
    decreases parts.len(),
{
    if parts.len() == 0 {
        Seq::empty()
    } else if parts.len() == 1 {
        parts[0]
    } else {
        joined(parts.drop_last(), sep) + sep + parts.last()
    }
}

pub fn join(parts: &Vec<String>, sep: &str) -> (r: String)
    ensures
        r@ == joined(parts.deep_view(), sep@),
{
    let mut out = String::new();
    let ghost all = parts.deep_view();
    for i in 0..parts.len()
        invariant
            all == parts.deep_view(),
            out@ == joined(all.take(i as int), sep@),
    {
        assert(all.take(i + 1).drop_last() =~= all.take(i as int));
        if i > 0 {
            out.append(sep);
        } else {
            assert(out@ + all[0] =~= all[0]);
        }
        out.append(parts[i].as_str());
    }
    assert(all.take(all.len() as int) =~= all);
    out
}

/// The part of `s` after the last character that satisfies `p`; all of `s` where there is none.
pub open spec fn after_last(s: Seq<char>, p: spec_fn(char) -> bool) -> Seq<char>
    decreases s.len(),
{
    if s.len() == 0 || p(s.last()) {
        Seq::empty()
    } else {
        after_last(s.drop_last(), p).push(s.last())
    }
}

/// Where some character satisfies `p`, less than all of `s` comes after the last one.
pub proof fn lemma_after_last_shorter(s: Seq<char>, p: spec_fn(char) -> bool, i: int)
    requires
        0 <= i < s.len(),
        p(s[i]),
    ensures
        after_last(s, p).len() < s.len(),
    decreases s.len(),
{
    if !p(s.last()) {
        assert(s.drop_last()[i] == s[i]);
        lemma_after_last_shorter(s.drop_last(), p, i);
    }
}

/// The part after the last character of `set`.
pub fn after_last_of(s: &str, set: &str) -> (r: String)
    ensures
        r@ == after_last(s@, among(set@)),
{
    let cs = chars_of(s);
    let ps = chars_of(set);
    let mut n: usize = cs.len();
    assert(cs@.take(n as int) =~= cs@);
    assert(cs@.skip(n as int) =~= Seq::empty());
    assert(after_last(cs@, among(set@)) =~= after_last(cs@.take(n as int), among(set@)) + cs@.skip(n as int));
    while n > 0 && !one_of(&ps, cs[n - 1])
        invariant
            n <= cs.len(),
            ps@ == set@,
            after_last(cs@, among(set@)) == after_last(cs@.take(n as int), among(set@)) + cs@.skip(n as int),
        decreases n,
    {
        assert(cs@.take(n as int).drop_last() =~= cs@.take(n - 1));
        assert(after_last(cs@.take(n - 1), among(set@)).push(cs@[n - 1]) + cs@.skip(n as int)
            =~= after_last(cs@.take(n - 1), among(set@)) + cs@.skip(n - 1));
        n = n - 1;
    }
    let r = string_range(&cs, n, cs.len());
    assert(after_last(cs@.take(n as int), among(set@)) =~= Seq::empty());
    assert(r@ =~= cs@.skip(n as int));
    assert(after_last(cs@, among(set@)) =~= r@);
    r
}

// ---------------------------------------------------------------- ascending sets

/// `a` comes before `b` in the order of their characters.
pub open spec fn precedes(a: Seq<char>, b: Seq<char>) -> bool
    decreases a.len(),
{
    if b.len() == 0 {
        false
    } else if a.len() == 0 {
        true
    } else if a[0] != b[0] {
        a[0] < b[0]
    } else {
        precedes(a.skip(1), b.skip(1))
    }
}

/// Does `a` come before `b`?
pub fn comes_before(a: &str, b: &str) -> (r: bool)
    ensures
        r == precedes(a@, b@),
{
    let xs = chars_of(a);
    let ys = chars_of(b);
    let mut i: usize = 0;
    assert(a@.skip(0) =~= a@);
    assert(b@.skip(0) =~= b@);
    while i < xs.len() && i < ys.len() && xs[i] == ys[i]
        invariant
            xs@ == a@,
            ys@ == b@,
            i <= xs.len(),
            i <= ys.len(),
            precedes(a@, b@) == precedes(a@.skip(i as int), b@.skip(i as int)),
        decreases xs.len() - i,
    {
        assert(a@.skip(i as int).skip(1) =~= a@.skip(i + 1));
        assert(b@.skip(i as int).skip(1) =~= b@.skip(i + 1));
        i = i + 1;
    }
    if i >= ys.len() {
        false
    } else if i >= xs.len() {
        true
    } else {
        xs[i] < ys[i]
    }
}

pub proof fn lemma_precedes_total(a: Seq<char>, b: Seq<char>)
    ensures
        a == b || precedes(a, b) || precedes(b, a),
    decreases a.len(),
{
    if a.len() > 0 && b.len() > 0 {
        if a[0] == b[0] {
            lemma_precedes_total(a.skip(1), b.skip(1));
            if a.skip(1) == b.skip(1) {
                assert(a =~= seq![a[0]] + a.skip(1));
                assert(b =~= seq![b[0]] + b.skip(1));
            }
        }
    } else if a.len() == 0 && b.len() == 0 {
        assert(a =~= b);
    }
}

pub proof fn lemma_precedes_transitive(a: Seq<char>, b: Seq<char>, c: Seq<char>)
    requires
        precedes(a, b),
        precedes(b, c),
    ensures
        precedes(a, c),
    decreases a.len(),
{
    if a.len() > 0 && a[0] == b[0] && b[0] == c[0] {
        lemma_precedes_transitive(a.skip(1), b.skip(1), c.skip(1));
    }
}

pub proof fn lemma_precedes_irreflexive(a: Seq<char>)
    ensures
        !precedes(a, a),
    decreases a.len(),
{
    if a.len() > 0 {
        lemma_precedes_irreflexive(a.skip(1));
    }
}

/// Each text comes before those that follow it, so that none stands there twice.
pub open spec fn ascending(s: Seq<Seq<char>>) -> bool {
    forall|i: int, j: int| 0 <= i < j < s.len() ==> precedes(#[trigger] s[i], #[trigger] s[j])
}

/// The ascending texts with `x` among them.
pub open spec fn with_member(s: Seq<Seq<char>>, x: Seq<char>) -> Seq<Seq<char>>
    decreases s.len(),
{
    if s.len() == 0 {
        seq![x]
    } else if s.last() == x {
        s
    } else if precedes(s.last(), x) {
        s.push(x)
    } else {
        with_member(s.drop_last(), x).push(s.last())
    }
}

/// The texts in ascending order, each once.
pub open spec fn set_of(s: Seq<Seq<char>>) -> Seq<Seq<char>>
    decreases s.len(),
{
    if s.len() == 0 {
        Seq::empty()
    } else {
        with_member(set_of(s.drop_last()), s.last())
    }
}

pub proof fn lemma_with_member(s: Seq<Seq<char>>, x: Seq<char>)
    requires
        ascending(s),
    ensures
        ascending(with_member(s, x)),
        forall|y: Seq<char>| #[trigger] with_member(s, x).contains(y) <==> s.contains(y) || y == x,
    decreases s.len(),
{
    let r = with_member(s, x);
    if s.len() == 0 {
        assert forall|y: Seq<char>| #[trigger] r.contains(y) <==> s.contains(y) || y == x by {
            if y == x {
                assert(r[0] == y);
            }
        }
    } else if s.last() == x {
        assert(s[s.len() - 1] == x);
    } else if precedes(s.last(), x) {
        assert forall|i: int, j: int| 0 <= i < j < r.len() implies precedes(
            #[trigger] r[i],
            #[trigger] r[j],
        ) by {
            if j == s.len() && i < s.len() - 1 {
                assert(precedes(s[i], s[s.len() - 1]));
                lemma_precedes_transitive(s[i], s.last(), x);
            }
        }
        assert forall|y: Seq<char>| #[trigger] r.contains(y) <==> s.contains(y) || y == x by {
            if s.contains(y) {
                let k = choose|k: int| 0 <= k < s.len() && s[k] == y;
                assert(r[k] == y);
            }
            if y == x {
                assert(r[s.len() as int] == y);
            }
        }
    } else {
        let front = s.drop_last();
        let inner = with_member(front, x);
        lemma_with_member(front, x);
        lemma_precedes_total(s.last(), x);
        assert forall|i: int, j: int| 0 <= i < j < r.len() implies precedes(
            #[trigger] r[i],
            #[trigger] r[j],
        ) by {
            if j == inner.len() {
                assert(inner.contains(inner[i]));
                if inner[i] != x {
                    let k = choose|k: int| 0 <= k < front.len() && front[k] == inner[i];
                    assert(precedes(s[k], s[s.len() - 1]));
                }
            } else {
                assert(precedes(inner[i], inner[j]));
            }
        }
        assert forall|y: Seq<char>| #[trigger] r.contains(y) <==> s.contains(y) || y == x by {
            if r.contains(y) {
                let k = choose|k: int| 0 <= k < r.len() && r[k] == y;
                if k < inner.len() {
                    assert(inner.contains(y));
                    if front.contains(y) {
                        let m = choose|m: int| 0 <= m < front.len() && front[m] == y;
                        assert(s[m] == y);
                    }
                } else {
                    assert(s[s.len() - 1] == y);
                }
            }
            if s.contains(y) || y == x {
                if y == s.last() {
                    assert(r[inner.len() as int] == y);
                } else {
                    if s.contains(y) {
                        let m = choose|m: int| 0 <= m < s.len() && s[m] == y;
                        assert(front[m] == y);
                    }
                    assert(inner.contains(y));
                    let k = choose|k: int| 0 <= k < inner.len() && inner[k] == y;
                    assert(r[k] == y);
                }
            }
        }
    }
}

/// The set of some texts is ascending, and holds exactly those texts.
pub proof fn lemma_set_of(s: Seq<Seq<char>>)
    ensures
        ascending(set_of(s)),
        forall|y: Seq<char>| #[trigger] set_of(s).contains(y) <==> s.contains(y),
    decreases s.len(),
{
    if s.len() > 0 {
        let front = s.drop_last();
        lemma_set_of(front);
        lemma_with_member(set_of(front), s.last());
        assert forall|y: Seq<char>| #[trigger] set_of(s).contains(y) <==> s.contains(y) by {
            if s.contains(y) && y != s.last() {
                let m = choose|m: int| 0 <= m < s.len() && s[m] == y;
                assert(front[m] == y);
            }
            if front.contains(y) {
                let m = choose|m: int| 0 <= m < front.len() && front[m] == y;
                assert(s[m] == y);
            }
            if y == s.last() {
                assert(s[s.len() - 1] == y);
            }
        }
    }
}

/// There is only one way to put a set of texts in ascending order.
pub proof fn lemma_same_set(a: Seq<Seq<char>>, b: Seq<Seq<char>>)
    requires
        ascending(a),
        ascending(b),
        forall|x: Seq<char>| #[trigger] a.contains(x) <==> b.contains(x),
    ensures
        a == b,
    decreases a.len(),
{
    if a.len() == 0 {
        if b.len() > 0 {
            assert(b.contains(b[0]));
            assert(a.contains(b[0]));
        }
        assert(a =~= b);
    } else {
        assert(a.contains(a[0]));
        assert(b.contains(a[0]));
        let i = choose|i: int| 0 <= i < b.len() && b[i] == a[0];
        assert(b.contains(b[0]));
        assert(a.contains(b[0]));
        let j = choose|j: int| 0 <= j < a.len() && a[j] == b[0];
        if i > 0 {
            assert(precedes(b[0], b[i]));
            if j > 0 {
                assert(precedes(a[0], a[j]));
                lemma_precedes_transitive(a[0], b[0], a[0]);
            }
            lemma_precedes_irreflexive(a[0]);
        }
        assert(a[0] == b[0]);
        let x = a.skip(1);
        let y = b.skip(1);
        assert forall|s: Seq<char>| #[trigger] x.contains(s) <==> y.contains(s) by {
            if x.contains(s) {
                let k = choose|k: int| 0 <= k < x.len() && x[k] == s;
                assert(a[k + 1] == s);
                assert(precedes(a[0], a[k + 1]));
                assert(a.contains(s));
                let m = choose|m: int| 0 <= m < b.len() && b[m] == s;
                lemma_precedes_irreflexive(s);
                assert(m != 0);
                assert(y[m - 1] == s);
            }
            if y.contains(s) {
                let k = choose|k: int| 0 <= k < y.len() && y[k] == s;
                assert(b[k + 1] == s);
                assert(precedes(b[0], b[k + 1]));
                assert(b.contains(s));
                assert(a.contains(s));
                let m = choose|m: int| 0 <= m < a.len() && a[m] == s;
                lemma_precedes_irreflexive(s);
                assert(m != 0);
                assert(x[m - 1] == s);
            }
        }
        assert forall|p: int, q: int| 0 <= p < q < x.len() implies precedes(
            #[trigger] x[p],
            #[trigger] x[q],
        ) by {
            assert(precedes(a[p + 1], a[q + 1]));
        }
        assert forall|p: int, q: int| 0 <= p < q < y.len() implies precedes(
            #[trigger] y[p],
            #[trigger] y[q],
        ) by {
            assert(precedes(b[p + 1], b[q + 1]));
        }
        lemma_same_set(x, y);
        assert(a =~= seq![a[0]] + x);
        assert(b =~= seq![b[0]] + y);
    }
}

/// Where `x` goes: what stands from `at` on comes after it, and what is before `at` does not.
proof fn lemma_member_at(s: Seq<Seq<char>>, x: Seq<char>, at: int)
    requires
        0 <= at <= s.len(),
        forall|k: int| at <= k < s.len() ==> #[trigger] s[k] != x && !precedes(s[k], x),
        at > 0 ==> s[at - 1] == x || precedes(s[at - 1], x),
    ensures
        with_member(s, x) == (if at > 0 && s[at - 1] == x {
            s
        } else {
            s.insert(at, x)
        }),
    decreases s.len(),
{
    if at < s.len() {
        let front = s.drop_last();
        lemma_member_at(front, x, at);
        assert(s[s.len() - 1] != x);
        assert(with_member(s, x) =~= with_member(front, x).push(s.last()));
        if at > 0 && s[at - 1] == x {
            assert(front.push(s.last()) =~= s);
        } else {
            assert(front.insert(at, x).push(s.last()) =~= s.insert(at, x));
        }
    } else if s.len() == 0 {
        assert(seq![x] =~= s.insert(0, x));
    } else {
        assert(s.push(x) =~= s.insert(at, x));
    }
}

/// Put a text among ascending ones.
fn insert_member(set: &mut Vec<String>, x: String)
    ensures
        final(set).deep_view() == with_member(old(set).deep_view(), x@),
{
    let ghost before = set.deep_view();
    let mut at: usize = set.len();
    while at > 0 && !same(set[at - 1].as_str(), x.as_str()) && !comes_before(
        set[at - 1].as_str(),
        x.as_str(),
    )
        invariant
            at <= set@.len(),
            before == set.deep_view(),
            forall|k: int|
                at <= k < before.len() ==> #[trigger] before[k] != x@ && !precedes(before[k], x@),
        decreases at,
    {
        assert(before[at - 1] == set@[at - 1]@);
        at = at - 1;
    }
    proof {
        if at > 0 {
            assert(before[at - 1] == set@[at - 1]@);
        }
        lemma_member_at(before, x@, at as int);
    }
    if at > 0 && same(set[at - 1].as_str(), x.as_str()) {
        return ;
    }
    set.insert(at, x);
    assert(set.deep_view() =~= before.insert(at as int, x@));
}

/// The texts in ascending order, each once.
pub fn sorted_set(texts: &Vec<String>) -> (r: Vec<String>)
    ensures
        r.deep_view() == set_of(texts.deep_view()),
{
    let ghost all = texts.deep_view();
    let mut out: Vec<String> = Vec::new();
    assert(out.deep_view() =~= set_of(all.take(0)));
    for i in 0..texts.len()
        invariant
            all == texts.deep_view(),
            out.deep_view() == set_of(all.take(i as int)),
    {
        assert(all.take(i + 1).drop_last() =~= all.take(i as int));
        assert(all.take(i + 1).last() == texts@[i as int]@);
        insert_member(&mut out, texts[i].clone());
    }
    assert(all.take(all.len() as int) =~= all);
    out
}

// ---------------------------------------------------------------- rewriting

/// `s` with every `from` turned into `to`.
pub open spec fn with_char(s: Seq<char>, from: char, to: char) -> Seq<char> {
    s.map_values(
        |c: char|
            if c == from {
                to
            } else {
                c
            },
    )
}

pub fn replace_char(s: &str, from: char, to: char) -> (r: String)
    ensures
        r@ == with_char(s@, from, to),
{
    let cs = chars_of(s);
    let mut out = String::new();
    for i in 0..cs.len()
        invariant
            cs@ == s@,
            out@ == with_char(s@, from, to).take(i as int),
    {
        let c = if cs[i] == from {
            to
        } else {
            cs[i]
        };
        out.push(c);
        assert(out@ =~= with_char(s@, from, to).take(i + 1));
    }
    assert(out@ =~= with_char(s@, from, to));
    out
}

/// `s` without any `p`, removed from the left without overlap.
pub open spec fn without(s: Seq<char>, p: Seq<char>) -> Seq<char>
    decreases s.len(),
{
    if s.len() == 0 || p.len() == 0 {
        s
    } else if begins(s, p) {
        without(s.skip(p.len() as int), p)
    } else {
        seq![s[0]] + without(s.skip(1), p)
    }
}

pub fn remove_all(s: &str, p: &str) -> (r: String)
    requires
        p@.len() > 0,
    ensures
        r@ == without(s@, p@),
{
    let cs = chars_of(s);
    let ps = chars_of(p);
    let mut out = String::new();
    let mut i: usize = 0;
    assert(s@.skip(0) =~= s@);
    assert(out@ + without(s@, p@) =~= without(s@, p@));
    while i < cs.len()
        invariant
            cs@ == s@,
            ps@ == p@,
            ps@.len() > 0,
            i <= cs.len(),
            out@ + without(s@.skip(i as int), p@) == without(s@, p@),
        decreases cs.len() - i,
    {
        let ghost rest = s@.skip(i as int);
        if stands_at(&cs, &ps, i) {
            assert(rest.subrange(0, p@.len() as int) =~= s@.subrange(i as int, i + p@.len()));
            assert(rest.skip(p@.len() as int) =~= s@.skip(i + p@.len()));
            i = i + ps.len();
        } else {
            assert(i + p@.len() <= s@.len() ==> rest.subrange(0, p@.len() as int) =~= s@.subrange(
                i as int,
                i + p@.len(),
            ));
            let ghost before = out@;
            out.push(cs[i]);
            assert(rest.skip(1) =~= s@.skip(i + 1));
            assert(before + (seq![rest[0]] + without(rest.skip(1), p@)) =~= out@ + without(
                s@.skip(i + 1),
                p@,
            ));
            i = i + 1;
        }
    }
    assert(s@.skip(i as int) =~= Seq::empty());
    assert(out@ + without(s@.skip(i as int), p@) =~= out@);
    out
}

/// Three texts one after the other.
pub fn concat3(a: &str, b: &str, c: &str) -> (r: String)
    ensures
        r@ == a@ + b@ + c@,
{
    let mut s = a.to_owned();
    s.append(b);
    s.append(c);
    s
}

/// The ASCII letters `A` to `Z` turned into `a` to `z`.
pub open spec fn ascii_lower(c: char) -> char {
    if 'A' <= c && c <= 'Z' {
        ((c as u32) + 32) as char
    } else {
        c
    }
}

/// What `str::to_lowercase` gives for a text that is not all ASCII.
pub uninterp spec fn unicode_lowercase(s: Seq<char>) -> Seq<char>;

/// `s` in lower case.
pub open spec fn lowered(s: Seq<char>) -> Seq<char> {
    if is_ascii_chars(s) {
        s.map_values(|c: char| ascii_lower(c))
    } else {
        unicode_lowercase(s)
    }
}

/// `str::to_lowercase`. On ASCII text it turns `A` to `Z` into `a` to `z` and leaves the other
/// characters; on any other text its result is named.
#[verifier::external_body]
pub(crate) fn lowercase(s: &str) -> (r: String)
    ensures
        is_ascii_chars(s@) ==> r@ == s@.map_values(|c: char| ascii_lower(c)),
        !is_ascii_chars(s@) ==> r@ == unicode_lowercase(s@),
{
    s.to_lowercase()
}

/// Is the name one of these?
pub fn is_among(names: &Vec<String>, name: &str) -> (r: bool)
    ensures
        r == names.deep_view().contains(name@),
{
    let ghost all = names.deep_view();
    for i in 0..names.len()
        invariant
            all == names.deep_view(),
            forall|k: int| 0 <= k < i ==> #[trigger] all[k] != name@,
    {
        assert(all[i as int] == names@[i as int]@);
        if same(names[i].as_str(), name) {
            return true;
        }
    }
    false
}

/// A copy of a text, where there is one.
pub fn copied(s: &Option<String>) -> (r: Option<String>)
    ensures
        r.deep_view() == s.deep_view(),
{
    match s {
        Some(t) => Some(t.clone()),
        None => None,
    }
}

/// A text of one's own, where there is one.
pub fn owned(s: Option<&str>) -> (r: Option<String>)
    ensures
        r.deep_view() == s.deep_view(),
{
    match s {
        Some(t) => Some(t.to_owned()),
        None => None,
    }
}

// ---------------------------------------------------------------- numbers

/// Nothing for one, an `s` for any other number.
pub open spec fn plural(n: nat) -> Seq<char> {
    if n == 1 {
        ""@
    } else {
        "s"@
    }
}

/// Nothing for one, an `s` for any other number.
pub fn plural_of(n: usize) -> (r: &'static str)
    ensures
        r@ == plural(n as nat),
{
    if n == 1 {
        ""
    } else {
        "s"
    }
}

/// The decimal digit of a number below ten.
pub open spec fn digit(n: nat) -> char {
    (('0' as u32) + n) as char
}

/// A number in decimal.
pub open spec fn decimal_of(n: nat) -> Seq<char>
    decreases n,
{
    if n < 10 {
        seq![digit(n)]
    } else {
        decimal_of(n / 10).push(digit(n % 10))
    }
}

fn digit_char(n: u64) -> (c: char)
    requires
        n < 10,
    ensures
        c == digit(n as nat),
{
    (48u8 + (n as u8)) as char
}

pub fn decimal(n: u64) -> (r: String)
    ensures
        r@ == decimal_of(n as nat),
    decreases n,
{
    if n < 10 {
        let mut out = String::new();
        out.push(digit_char(n));
        assert(out@ =~= seq![digit(n as nat)]);
        out
    } else {
        let mut out = decimal(n / 10);
        out.push(digit_char(n % 10));
        out
    }
}

pub fn decimal_usize(n: usize) -> (r: String)
    ensures
        r@ == decimal_of(n as nat),
{
    decimal(n as u64)
}

/// Is this an ASCII digit?
pub open spec fn is_digit(c: char) -> bool {
    '0' <= c && c <= '9'
}

pub open spec fn all_digits(s: Seq<char>) -> bool {
    forall|i: int| 0 <= i < s.len() ==> is_digit(#[trigger] s[i])
}

/// The number that a run of decimal digits writes.
pub open spec fn digits_value(s: Seq<char>) -> nat
    decreases s.len(),
{
    if s.len() == 0 {
        0
    } else {
        digits_value(s.drop_last()) * 10 + ((s.last() as u32 - '0' as u32) as nat)
    }
}

/// The number that a text writes, as `u32` reads it: an optional `+`, then at least one ASCII
/// digit and nothing else, and a value that fits.
pub open spec fn u32_of(s: Seq<char>) -> Option<u32> {
    let d = if s.len() > 0 && s[0] == '+' {
        s.skip(1)
    } else {
        s
    };
    if d.len() > 0 && all_digits(d) && digits_value(d) <= u32::MAX {
        Some(digits_value(d) as u32)
    } else {
        None
    }
}

proof fn lemma_digits_grow(s: Seq<char>, n: int)
    requires
        0 <= n <= s.len(),
        all_digits(s),
    ensures
        digits_value(s.take(n)) <= digits_value(s),
    decreases s.len(),
{
    if n == s.len() {
        assert(s.take(n) =~= s);
    } else {
        assert(s.drop_last().take(n) =~= s.take(n));
        lemma_digits_grow(s.drop_last(), n);
    }
}

pub fn parse_u32(s: &str) -> (r: Option<u32>)
    ensures
        r == u32_of(s@),
{
    let cs = chars_of(s);
    let from: usize = if cs.len() > 0 && cs[0] == '+' {
        1
    } else {
        0
    };
    let ghost d = if from == 1 {
        s@.skip(1)
    } else {
        s@
    };
    assert(d =~= s@.skip(from as int));
    if from == cs.len() {
        return None;
    }
    let mut value: u64 = 0;
    let mut i: usize = from;
    assert(d.take(0) =~= Seq::empty());
    while i < cs.len()
        invariant
            cs@ == s@,
            from <= i <= cs.len(),
            d == s@.skip(from as int),
            u32_of(s@) == (if d.len() > 0 && all_digits(d) && digits_value(d) <= u32::MAX {
                Some(digits_value(d) as u32)
            } else {
                None
            }),
            all_digits(d.take(i - from)),
            value == digits_value(d.take(i - from)),
            value <= u32::MAX,
        decreases cs.len() - i,
    {
        let c = cs[i];
        assert(d[i - from] == c);
        if c < '0' || c > '9' {
            assert(!all_digits(d));
            return None;
        }
        let k = (c as u32) - 48;
        value = value * 10 + (k as u64);
        i = i + 1;
        assert(d.take(i - from).drop_last() =~= d.take(i - from - 1));
        assert forall|j: int| 0 <= j < i - from implies is_digit(#[trigger] d.take(i - from)[j]) by {
            if j < i - from - 1 {
                assert(d.take(i - from - 1)[j] == d[j]);
            }
        }
        if value > u32::MAX as u64 {
            proof {
                if all_digits(d) {
                    lemma_digits_grow(d, i - from);
                }
            }
            return None;
        }
    }
    assert(d.take(d.len() as int) =~= d);
    Some(value as u32)
}

// ---------------------------------------------------------------- what the operations do

/// A text has what stands anywhere in it, begins with what stands at its start and ends with what
/// stands at its end, and no other.
pub proof fn law_what_a_text_has(a: Seq<char>, p: Seq<char>, b: Seq<char>, s: Seq<char>)
    ensures
        has(a + p + b, p),
        begins(p + b, p),
        ends(a + p, p),
        has(s, p) ==> exists|i: int, j: int| 0 <= i <= j <= s.len() && #[trigger] s.subrange(i, j) == p,
        begins(s, p) ==> p.len() <= s.len() && s.take(p.len() as int) == p,
        ends(s, p) ==> p.len() <= s.len() && s.skip(s.len() - p.len()) == p,
        after_prefix(p + b, p) == Some(b),
        !begins(s, p) ==> after_prefix(s, p) is None,
{
    let n = a.len() as int;
    let all = a + p + b;
    assert(all.subrange(n, n + p.len()) =~= p);
    assert(occurs_at(all, p, n));
    assert((p + b).subrange(0, p.len() as int) =~= p);
    assert((a + p).subrange(n, n + p.len()) =~= p);
    assert((p + b).skip(p.len() as int) =~= b);
    if has(s, p) {
        let i = choose|i: int| occurs_at(s, p, i);
        assert(s.subrange(i, i + p.len()) == p);
    }
    if begins(s, p) {
        assert(s.take(p.len() as int) =~= s.subrange(0, p.len() as int));
    }
    if ends(s, p) {
        assert(s.skip(s.len() - p.len()) =~= s.subrange(s.len() - p.len(), s.len() as int));
    }
}

/// Trimming leaves what stands between the first and the last character that is not trimmed away.
proof fn lemma_what_trimming_leaves(s: Seq<char>, p: spec_fn(char) -> bool)
    ensures
        ({
            let t = back_trimmed(front_trimmed(s, p), p);
            &&& exists|k: int, m: int|
                0 <= k <= m <= s.len() && t == #[trigger] s.subrange(k, m) && (forall|i: int|
                    0 <= i < k ==> p(#[trigger] s[i])) && (forall|i: int|
                    m <= i < s.len() ==> p(#[trigger] s[i]))
            &&& t.len() > 0 ==> !p(t[0]) && !p(t.last())
        }),
{
    let f = front_trimmed(s, p);
    let t = back_trimmed(f, p);
    lemma_front_trimmed(s, p);
    lemma_back_trimmed(f, p);
    lemma_front_is_such(s, p);
    lemma_back_is_such(f, p);
    let k = s.len() - f.len();
    let m = k + t.len();
    assert(t =~= s.subrange(k, m));
    assert forall|i: int| m <= i < s.len() implies p(#[trigger] s[i]) by {
        assert(f[i - k] == s[i]);
    }
}

/// What the start loses satisfies `p`, and what is left does not start so.
proof fn lemma_front_is_such(s: Seq<char>, p: spec_fn(char) -> bool)
    ensures
        forall|i: int| 0 <= i < s.len() - front_trimmed(s, p).len() ==> p(#[trigger] s[i]),
        front_trimmed(s, p).len() > 0 ==> !p(front_trimmed(s, p)[0]),
    decreases s.len(),
{
    if s.len() > 0 && p(s[0]) {
        let rest = s.skip(1);
        lemma_front_is_such(rest, p);
        assert forall|i: int| 0 <= i < s.len() - front_trimmed(s, p).len() implies p(
            #[trigger] s[i],
        ) by {
            if i > 0 {
                assert(rest[i - 1] == s[i]);
            }
        }
    }
}

/// What the end loses satisfies `p`, and what is left does not end so.
proof fn lemma_back_is_such(s: Seq<char>, p: spec_fn(char) -> bool)
    ensures
        forall|i: int| back_trimmed(s, p).len() <= i < s.len() ==> p(#[trigger] s[i]),
        back_trimmed(s, p).len() > 0 ==> !p(back_trimmed(s, p).last()),
    decreases s.len(),
{
    if s.len() > 0 && p(s.last()) {
        let rest = s.drop_last();
        lemma_back_is_such(rest, p);
        assert forall|i: int| back_trimmed(s, p).len() <= i < s.len() implies p(#[trigger] s[i]) by {
            if i < s.len() - 1 {
                assert(rest[i] == s[i]);
            }
        }
    }
}

/// Trimming a text takes the white space at both of its ends and nothing else.
pub proof fn law_what_trimming_leaves(s: Seq<char>)
    ensures
        exists|k: int, m: int|
            0 <= k <= m <= s.len() && trimmed(s) == #[trigger] s.subrange(k, m) && (forall|i: int|
                0 <= i < k ==> is_white(#[trigger] s[i])) && (forall|i: int|
                m <= i < s.len() ==> is_white(#[trigger] s[i])),
        trimmed(s).len() > 0 ==> !is_white(trimmed(s)[0]) && !is_white(trimmed(s).last()),
{
    let p = whites();
    lemma_what_trimming_leaves(s, p);
    let (k, m) = choose|k: int, m: int|
        0 <= k <= m <= s.len() && trimmed(s) == #[trigger] s.subrange(k, m) && (forall|i: int|
            0 <= i < k ==> p(#[trigger] s[i])) && (forall|i: int|
            m <= i < s.len() ==> p(#[trigger] s[i]));
    assert forall|i: int| 0 <= i < k implies is_white(#[trigger] s[i]) by {
        assert(p(s[i]));
    }
    assert forall|i: int| m <= i < s.len() implies is_white(#[trigger] s[i]) by {
        assert(p(s[i]));
    }
    if trimmed(s).len() > 0 {
        assert(!p(trimmed(s)[0]) && !p(trimmed(s).last()));
    }
}

/// Trimming a text of a set of characters takes those at both of its ends and nothing else.
pub proof fn law_what_trimming_of_a_set_leaves(s: Seq<char>, set: Seq<char>)
    ensures
        exists|k: int, m: int|
            0 <= k <= m <= s.len() && trimmed_of(s, set) == #[trigger] s.subrange(k, m) && (forall|
                i: int,
            |
                0 <= i < k ==> set.contains(#[trigger] s[i])) && (forall|i: int|
                m <= i < s.len() ==> set.contains(#[trigger] s[i])),
        trimmed_of(s, set).len() > 0 ==> !set.contains(trimmed_of(s, set)[0]) && !set.contains(
            trimmed_of(s, set).last(),
        ),
{
    let p = among(set);
    lemma_what_trimming_leaves(s, p);
    let (k, m) = choose|k: int, m: int|
        0 <= k <= m <= s.len() && trimmed_of(s, set) == #[trigger] s.subrange(k, m) && (forall|
            i: int,
        |
            0 <= i < k ==> p(#[trigger] s[i])) && (forall|i: int|
            m <= i < s.len() ==> p(#[trigger] s[i]));
    assert forall|i: int| 0 <= i < k implies set.contains(#[trigger] s[i]) by {
        assert(p(s[i]));
    }
    assert forall|i: int| m <= i < s.len() implies set.contains(#[trigger] s[i]) by {
        assert(p(s[i]));
    }
    if trimmed_of(s, set).len() > 0 {
        assert(!p(trimmed_of(s, set)[0]) && !p(trimmed_of(s, set).last()));
    }
}

/// Which characters are white space.
pub proof fn law_what_white_space_is(c: char)
    ensures
        c as int <= 127 ==> (is_white(c) <==> c == ' ' || c == '\t' || c == '\n' || c == '\r' || c
            == '\u{b}' || c == '\u{c}'),
        is_white('\u{85}') && is_white('\u{a0}') && is_white('\u{1680}') && is_white('\u{3000}'),
        is_white('\u{2028}') && is_white('\u{2029}') && is_white('\u{202f}') && is_white('\u{205f}'),
        c as int >= 0x2000 && c as int <= 0x200a ==> is_white(c),
        c as int > 0x3000 ==> !is_white(c),
        c as int >= 0x80 && c as int <= 0x1fff && c as int != 0x85 && c as int != 0xa0 && c as int
            != 0x1680 ==> !is_white(c),
        c as int >= 0x200b && c as int <= 0x2fff && c as int != 0x2028 && c as int != 0x2029
            && c as int != 0x202f && c as int != 0x205f ==> !is_white(c),
{
}

/// The words of a text are those on either side of a white space; a text without white space is
/// one word, and an empty one has none.
pub proof fn law_what_the_words_are(a: Seq<char>, c: char, b: Seq<char>)
    requires
        is_white(c),
    ensures
        words_of(a + seq![c] + b) == words_of(a) + words_of(b),
        a.len() == 0 ==> words_of(a).len() == 0,
        a.len() > 0 && (forall|i: int| 0 <= i < a.len() ==> !is_white(#[trigger] a[i])) ==> words_of(
            a,
        ) == seq![a],
{
    lemma_words_joined(a, c, b);
    if a.len() > 0 && (forall|i: int| 0 <= i < a.len() ==> !is_white(#[trigger] a[i])) {
        assert(!is_white(a[0]));
        assert(front_trimmed(a, whites()) == a);
        lemma_word_end_of(a, Seq::empty());
        assert(a + Seq::empty() =~= a);
        assert(a.take(a.len() as int) =~= a);
        assert(a.skip(a.len() as int) =~= Seq::empty());
        assert(words_of(Seq::<char>::empty()) =~= Seq::empty());
        assert(words_of(a) =~= seq![a]);
    }
}

/// A word ends where white space or the end of the text follows it.
proof fn lemma_word_end_of(w: Seq<char>, rest: Seq<char>)
    requires
        forall|i: int| 0 <= i < w.len() ==> !is_white(#[trigger] w[i]),
        rest.len() == 0 || is_white(rest[0]),
    ensures
        word_end(w + rest) == w.len(),
    decreases w.len(),
{
    let s = w + rest;
    if w.len() > 0 {
        assert(!is_white(w[0]));
        assert(s[0] == w[0]);
        assert(s.skip(1) =~= w.skip(1) + rest);
        assert forall|i: int| 0 <= i < w.skip(1).len() implies !is_white(#[trigger] w.skip(1)[i]) by {
            assert(w.skip(1)[i] == w[i + 1]);
        }
        lemma_word_end_of(w.skip(1), rest);
    } else {
        assert(s =~= rest);
    }
}

proof fn lemma_words_joined(a: Seq<char>, c: char, b: Seq<char>)
    requires
        is_white(c),
    ensures
        words_of(a + seq![c] + b) == words_of(a) + words_of(b),
    decreases a.len(),
{
    let s = a + seq![c] + b;
    if a.len() == 0 {
        assert(s[0] == c);
        assert(s.skip(1) =~= b);
        lemma_words_behind_white(s);
        assert(words_of(a) =~= Seq::empty());
        assert(words_of(s) =~= words_of(a) + words_of(b));
    } else if is_white(a[0]) {
        assert(s[0] == a[0]);
        assert(s.skip(1) =~= a.skip(1) + seq![c] + b);
        lemma_words_behind_white(s);
        lemma_words_behind_white(a);
        lemma_words_joined(a.skip(1), c, b);
    } else {
        assert(front_trimmed(a, whites()) == a);
        assert(s[0] == a[0]);
        assert(front_trimmed(s, whites()) == s);
        let n = word_end(a);
        lemma_word_end_reached(a);
        let w = a.take(n);
        let rest = a.skip(n);
        assert forall|i: int| 0 <= i < w.len() implies !is_white(#[trigger] w[i]) by {
            assert(w[i] == a[i]);
        }
        assert(s =~= w + (rest + seq![c] + b));
        lemma_word_end_of(w, rest + seq![c] + b);
        assert(s.take(n) =~= w);
        assert(s.skip(n) =~= rest + seq![c] + b);
        lemma_words_joined(rest, c, b);
        assert(words_of(a) == seq![w] + words_of(rest));
        assert(words_of(s) == seq![w] + words_of(rest + seq![c] + b));
        assert(words_of(s) =~= words_of(a) + words_of(b));
    }
}

/// A word has no white space, is not empty where the text starts with none, and ends at white
/// space or with the text.
proof fn lemma_word_end_reached(s: Seq<char>)
    ensures
        0 <= word_end(s) <= s.len(),
        forall|i: int| 0 <= i < word_end(s) ==> !is_white(#[trigger] s[i]),
        word_end(s) < s.len() ==> is_white(s[word_end(s)]),
        s.len() > 0 && !is_white(s[0]) ==> word_end(s) > 0,
    decreases s.len(),
{
    if s.len() > 0 && !is_white(s[0]) {
        let rest = s.skip(1);
        lemma_word_end_reached(rest);
        assert forall|i: int| 0 <= i < word_end(s) implies !is_white(#[trigger] s[i]) by {
            if i > 0 {
                assert(rest[i - 1] == s[i]);
            }
        }
    }
}

/// White space at the start of a text holds no word.
proof fn lemma_words_behind_white(s: Seq<char>)
    requires
        s.len() > 0,
        is_white(s[0]),
    ensures
        words_of(s) == words_of(s.skip(1)),
{
    assert(front_trimmed(s, whites()) == front_trimmed(s.skip(1), whites()));
}

/// A joined text starts with the first part, and each further one stands behind the separator.
pub proof fn law_how_parts_are_joined(parts: Seq<Seq<char>>, part: Seq<char>, sep: Seq<char>)
    ensures
        parts.len() == 0 ==> joined(parts, sep).len() == 0 && joined(parts.push(part), sep) == part,
        parts.len() > 0 ==> joined(parts.push(part), sep) == joined(parts, sep) + sep + part,
{
    assert(parts.push(part).drop_last() =~= parts);
}

/// The lines of a text are what stands between its line feeds, each without a carriage return
/// before the line feed, and nothing behind the last line feed is no line.
pub proof fn law_what_the_lines_are(line: Seq<char>, rest: Seq<char>)
    requires
        !line.contains('\n'),
    ensures
        lines_of(line + seq!['\n'] + rest) == seq![
            if line.len() > 0 && line.last() == '\r' {
                line.drop_last()
            } else {
                line
            },
        ] + lines_of(rest),
        lines_of(line) == (if line.len() == 0 {
            Seq::empty()
        } else {
            seq![line]
        }),
{
    let s = line + seq!['\n'] + rest;
    let n = line.len() as int;
    lemma_one_line(line);
    lemma_next_char(s, '\n', 0);
    let j = next_char(s, '\n', 0);
    assert(s[n] == '\n');
    assert(j == n) by {
        if j < n {
            assert(s[j] == line[j]);
            assert(line.contains(line[j]));
        }
    }
    assert(n > 0 ==> s[n - 1] == line.last());
    assert(s.subrange(0, line_end(s, 0, n)) =~= if n > 0 && line.last() == '\r' {
        line.drop_last()
    } else {
        line
    });
    lemma_lines_behind(line + seq!['\n'], rest, 0);
}

/// What stands behind the last of some characters.
pub proof fn law_what_stands_behind_the_last(
    a: Seq<char>,
    c: char,
    b: Seq<char>,
    p: spec_fn(char) -> bool,
)
    requires
        forall|i: int| 0 <= i < b.len() ==> !p(#[trigger] b[i]),
    ensures
        p(c) ==> after_last(a + seq![c] + b, p) == b,
        after_last(b, p) == b,
    decreases b.len(),
{
    let s = a + seq![c] + b;
    if b.len() > 0 {
        let less = b.drop_last();
        assert forall|i: int| 0 <= i < less.len() implies !p(#[trigger] less[i]) by {
            assert(less[i] == b[i]);
        }
        law_what_stands_behind_the_last(a, c, less, p);
        assert(!p(b[b.len() - 1]));
        assert(s.last() == b.last());
        assert(s.drop_last() =~= a + seq![c] + less);
        assert(less.push(b.last()) =~= b);
    } else {
        assert(s.last() == c);
        assert(b =~= Seq::empty());
    }
}

/// One text comes before another where it is the beginning of it, or where at the first place at
/// which they differ its character is the lower one.
pub proof fn law_which_text_comes_first(
    same: Seq<char>,
    c: char,
    d: char,
    a: Seq<char>,
    b: Seq<char>,
)
    ensures
        precedes(same, same + seq![c] + a),
        !precedes(same + seq![c] + a, same),
        !precedes(same, same),
        c < d ==> precedes(same + seq![c] + a, same + seq![d] + b) && !precedes(
            same + seq![d] + b,
            same + seq![c] + a,
        ),
    decreases same.len(),
{
    let x = same + seq![c] + a;
    let y = same + seq![d] + b;
    if same.len() > 0 {
        law_which_text_comes_first(same.skip(1), c, d, a, b);
        assert(x.skip(1) =~= same.skip(1) + seq![c] + a);
        assert(y.skip(1) =~= same.skip(1) + seq![d] + b);
        assert(x[0] == same[0] && y[0] == same[0]);
    } else {
        assert(x[0] == c && y[0] == d);
    }
}

/// How often a text occurs: not at all where the other does not have it, else once at its first
/// place and as often as in what stands behind that.
pub proof fn law_how_often_a_text_occurs(s: Seq<char>, p: Seq<char>, i: int)
    requires
        p.len() > 0,
    ensures
        !(has(s, p)) ==> count_of(s, p) == 0,
        occurs_at(s, p, i) && (forall|j: int| 0 <= j < i ==> !#[trigger] occurs_at(s, p, j))
            ==> count_of(s, p) == 1 + count_of(s.skip(i + p.len()), p),
{
    if !(has(s, p)) {
        lemma_counts_nothing(s, p, 0);
    }
    if occurs_at(s, p, i) && (forall|j: int| 0 <= j < i ==> !#[trigger] occurs_at(s, p, j)) {
        lemma_counts_from_the_first(s, p, 0, i);
        lemma_count_shifted(s, p, i + p.len(), i + p.len());
    }
}

proof fn lemma_counts_nothing(s: Seq<char>, p: Seq<char>, from: int)
    requires
        !(has(s, p)),
    ensures
        count_from(s, p, from) == 0,
    decreases s.len() - from,
{
    if p.len() > 0 && from >= 0 && from + p.len() <= s.len() {
        assert(!occurs_at(s, p, from));
        lemma_counts_nothing(s, p, from + 1);
    }
}

proof fn lemma_counts_from_the_first(s: Seq<char>, p: Seq<char>, from: int, i: int)
    requires
        p.len() > 0,
        0 <= from <= i,
        occurs_at(s, p, i),
        forall|j: int| from <= j < i ==> !#[trigger] occurs_at(s, p, j),
    ensures
        count_from(s, p, from) == 1 + count_from(s, p, i + p.len()),
    decreases i - from,
{
    if from < i {
        assert(!occurs_at(s, p, from));
        lemma_counts_from_the_first(s, p, from + 1, i);
    }
}

proof fn lemma_count_shifted(s: Seq<char>, p: Seq<char>, k: int, from: int)
    requires
        p.len() > 0,
        0 <= k <= from,
        k <= s.len(),
    ensures
        count_from(s, p, from) == count_from(s.skip(k), p, from - k),
    decreases s.len() - from,
{
    let t = s.skip(k);
    if from + p.len() <= s.len() {
        assert(t.subrange(from - k, from - k + p.len()) =~= s.subrange(from, from + p.len()));
        assert(occurs_at(s, p, from) == occurs_at(t, p, from - k));
        if occurs_at(s, p, from) {
            lemma_count_shifted(s, p, k, from + p.len());
        } else {
            lemma_count_shifted(s, p, k, from + 1);
        }
    }
}

/// What a text is once another has been taken out of it: itself where it does not have that, else
/// what stands before its first place and what is left of what stands behind it.
pub proof fn law_what_taking_out_leaves(s: Seq<char>, p: Seq<char>, i: int)
    requires
        p.len() > 0,
    ensures
        !(has(s, p)) ==> without(s, p) == s,
        occurs_at(s, p, i) && (forall|j: int| 0 <= j < i ==> !#[trigger] occurs_at(s, p, j))
            ==> without(s, p) == s.take(i) + without(s.skip(i + p.len()), p),
    decreases s.len(),
{
    if s.len() > 0 {
        let t = s.skip(1);
        if !(has(s, p)) {
            assert(!occurs_at(s, p, 0));
            assert forall|k: int| !#[trigger] occurs_at(t, p, k) by {
                if occurs_at(t, p, k) {
                    assert(s.subrange(k + 1, k + 1 + p.len()) =~= t.subrange(k, k + p.len()));
                    assert(occurs_at(s, p, k + 1));
                }
            }
            law_what_taking_out_leaves(t, p, 0);
            assert(seq![s[0]] + t =~= s);
        }
        if occurs_at(s, p, i) && (forall|j: int| 0 <= j < i ==> !#[trigger] occurs_at(s, p, j)) {
            if i == 0 {
                assert(s.take(0) + without(s.skip(p.len() as int), p) =~= without(
                    s.skip(p.len() as int),
                    p,
                ));
            } else {
                assert(!occurs_at(s, p, 0));
                assert(t.subrange(i - 1, i - 1 + p.len()) =~= s.subrange(i, i + p.len()));
                assert forall|j: int| 0 <= j < i - 1 implies !#[trigger] occurs_at(t, p, j) by {
                    if occurs_at(t, p, j) {
                        assert(s.subrange(j + 1, j + 1 + p.len()) =~= t.subrange(j, j + p.len()));
                        assert(occurs_at(s, p, j + 1));
                    }
                }
                law_what_taking_out_leaves(t, p, i - 1);
                assert(t.skip(i - 1 + p.len()) =~= s.skip(i + p.len()));
                assert(seq![s[0]] + t.take(i - 1) =~= s.take(i));
                assert(without(s, p) =~= s.take(i) + without(s.skip(i + p.len()), p));
            }
        }
    }
}

/// Which characters take the place of which.
pub proof fn law_how_characters_are_replaced(s: Seq<char>, from: char, to: char, i: int)
    requires
        0 <= i < s.len(),
    ensures
        with_char(s, from, to).len() == s.len(),
        s[i] == from ==> with_char(s, from, to)[i] == to,
        s[i] != from ==> with_char(s, from, to)[i] == s[i],
{
}

/// In lower case each letter of a plain text is the small one, and nothing else changes.
pub proof fn law_what_lower_case_is(s: Seq<char>, i: int, k: int)
    requires
        is_ascii_chars(s),
        0 <= i < s.len(),
        0 <= k < 26,
    ensures
        lowered(s).len() == s.len(),
        s[i] == "ABCDEFGHIJKLMNOPQRSTUVWXYZ"@[k] ==> lowered(s)[i]
            == "abcdefghijklmnopqrstuvwxyz"@[k],
        !('A' <= s[i] && s[i] <= 'Z') ==> lowered(s)[i] == s[i],
{
    reveal_strlit("ABCDEFGHIJKLMNOPQRSTUVWXYZ");
    reveal_strlit("abcdefghijklmnopqrstuvwxyz");
}

/// What is one stands alone, and everything else has an `s` behind it.
pub proof fn law_what_is_plural(n: nat)
    ensures
        n == 1 ==> plural(n) == Seq::<char>::empty(),
        n != 1 ==> plural(n) == seq!['s'],
{
    reveal_strlit("");
    reveal_strlit("s");
    assert(""@ =~= Seq::empty());
    assert("s"@ =~= seq!['s']);
}

/// The first characters of a text, all of them where there are no more.
pub proof fn law_what_the_first_characters_are(s: Seq<char>, n: int)
    requires
        0 <= n,
    ensures
        n <= s.len() ==> first_chars(s, n) == s.take(n),
        n >= s.len() ==> first_chars(s, n) == s,
{
    assert(s.take(s.len() as int) =~= s);
}

/// A number is written with its digits, the highest first and without a leading zero.
pub proof fn law_how_numbers_are_written(n: nat, d: nat)
    requires
        d < 10,
    ensures
        decimal_of(d) == seq!["0123456789"@[d as int]],
        n > 0 ==> decimal_of(10 * n + d) == decimal_of(n) + seq!["0123456789"@[d as int]],
{
    reveal_strlit("0123456789");
    assert((10 * n + d) / 10 == n && (10 * n + d) % 10 == d);
    if n > 0 {
        assert(decimal_of(10 * n + d) =~= decimal_of(n) + seq![digit(d)]);
    }
}

/// A written number is read back, with or without a sign before it, where it is not too large.
pub proof fn law_numbers_are_read_back(n: nat)
    ensures
        n <= u32::MAX ==> u32_of(decimal_of(n)) == Some(n as u32) && u32_of(
            seq!['+'] + decimal_of(n),
        ) == Some(n as u32),
        n > u32::MAX ==> u32_of(decimal_of(n)) is None,
{
    lemma_decimal(n);
    let s = decimal_of(n);
    assert(is_digit(s[0]));
    let t = seq!['+'] + s;
    assert(t.skip(1) =~= s);
}

proof fn lemma_decimal(n: nat)
    ensures
        decimal_of(n).len() > 0,
        all_digits(decimal_of(n)),
        digits_value(decimal_of(n)) == n,
    decreases n,
{
    if n < 10 {
        let s = seq![digit(n)];
        assert(s.drop_last() =~= Seq::empty());
        assert(digits_value(s.drop_last()) == 0);
    } else {
        lemma_decimal(n / 10);
        let s = decimal_of(n);
        assert(s.drop_last() =~= decimal_of(n / 10));
        assert(s.last() == digit(n % 10));
        assert forall|i: int| 0 <= i < s.len() implies is_digit(#[trigger] s[i]) by {
            if i < s.len() - 1 {
                assert(decimal_of(n / 10)[i] == s[i]);
            }
        }
    }
}

/// What is no number: nothing at all, and what holds anything but digits behind the sign.
pub proof fn law_what_is_no_number(s: Seq<char>, i: int)
    ensures
        s.len() == 0 ==> u32_of(s) is None,
        s == seq!['+'] ==> u32_of(s) is None,
        0 <= i < s.len() && !('0' <= s[i] && s[i] <= '9') && !(i == 0 && s[i] == '+') ==> u32_of(s)
            is None,
{
    if 0 <= i < s.len() && !('0' <= s[i] && s[i] <= '9') && !(i == 0 && s[i] == '+') {
        if s[0] == '+' {
            assert(s.skip(1)[i - 1] == s[i]);
            assert(!is_digit(s.skip(1)[i - 1]));
        } else {
            assert(!is_digit(s[i]));
        }
    }
}

} // verus!
