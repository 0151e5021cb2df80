//! Character-level text helpers shared by the argument parser, the
//! candidate filters and the report formatter.

use vstd::prelude::*;

verus! {

/// Appends one character to a `String` (std's `String::push`).
/// Trusted: the new contents are the old contents followed by `c`.
#[verifier::external_body]
pub(crate) fn push_char(text: &mut String, c: char)
    ensures
        final(text)@ == old(text)@.push(c),
{
    text.push(c);
}

/// The characters of a string, in order.
pub fn chars_of(text: &str) -> (chars: Vec<char>)
    ensures
        chars@ == text@,
{
    let mut chars: Vec<char> = Vec::new();
    for c in it: text.chars()
        invariant
            chars@ == it.seq().take(it.index() as int),
            it.seq() == text@,
    {
        chars.push(c);
    }
    chars
}

/// The string made of the given characters.
pub fn string_of(chars: &[char]) -> (text: String)
    ensures
        text@ == chars@,
{
    let mut text = String::new();
    let mut i: usize = 0;
    while i < chars.len()
        invariant
            i <= chars@.len(),
            text@ == chars@.take(i as int),
        decreases chars@.len() - i,
    {
        push_char(&mut text, chars[i]);
        i = i + 1;
        assert(text@ =~= chars@.take(i as int));
    }
    assert(chars@.take(chars@.len() as int) =~= chars@);
    text
}

/// Whether two character sequences are equal.
pub fn same_chars(a: &[char], b: &[char]) -> (same: bool)
    ensures
        same == (a@ == b@),
{
    if a.len() != b.len() {
        return false;
    }
    let mut i: usize = 0;
    while i < a.len()
        invariant
            a@.len() == b@.len(),
            i <= a@.len(),
            forall|k: int| 0 <= k < i ==> a@[k] == b@[k],
        decreases a@.len() - i,
    {
        if a[i] != b[i] {
            return false;
        }
        i = i + 1;
    }
    assert(a@ =~= b@);
    true
}

/// Whether a character sequence spells the literal.
pub fn equals_literal(text: &Vec<char>, literal: &str) -> (same: bool)
    ensures
        same == (text@ == literal@),
{
    let chars = chars_of(literal);
    same_chars(text.as_slice(), chars.as_slice())
}

/// Whether `text` begins with `prefix`.
pub fn starts_with(text: &[char], prefix: &[char]) -> (starts: bool)
    ensures
        starts == prefix@.is_prefix_of(text@),
{
    if prefix.len() > text.len() {
        return false;
    }
    let mut i: usize = 0;
    while i < prefix.len()
        invariant
            prefix@.len() <= text@.len(),
            i <= prefix@.len(),
            forall|k: int| 0 <= k < i ==> prefix@[k] == text@[k],
        decreases prefix@.len() - i,
    {
        if prefix[i] != text[i] {
            return false;
        }
        i = i + 1;
    }
    true
}

/// `needle` occurs in `haystack` at position `at`.
pub open spec fn occurs_at(haystack: Seq<char>, needle: Seq<char>, at: int) -> bool {
    0 <= at && at + needle.len() <= haystack.len() && haystack.subrange(at, at + needle.len())
        == needle
}

/// `needle` occurs somewhere in `haystack` (the empty needle occurs everywhere).
pub open spec fn contains_spec(haystack: Seq<char>, needle: Seq<char>) -> bool {
    exists|at: int| occurs_at(haystack, needle, at)
}

fn occurs_at_exec(haystack: &[char], needle: &[char], at: usize) -> (found: bool)
    requires
        at + needle@.len() <= haystack@.len(),
    ensures
        found == occurs_at(haystack@, needle@, at as int),
{
    let hlen = haystack.len();
    let mut k: usize = 0;
    while k < needle.len()
        invariant
            at + needle@.len() <= haystack@.len(),
            hlen == haystack@.len(),
            k <= needle@.len(),
            forall|m: int| 0 <= m < k ==> haystack@[at + m] == needle@[m],
        decreases needle@.len() - k,
    {
        if haystack[at + k] != needle[k] {
            assert(haystack@.subrange(at as int, at + needle@.len())[k as int] != needle@[k as int]);
            return false;
        }
        k = k + 1;
    }
    assert(haystack@.subrange(at as int, at + needle@.len()) =~= needle@);
    true
}

/// Whether `needle` occurs in `haystack` (std's `str::contains` with a string pattern).
pub fn contains(haystack: &[char], needle: &[char]) -> (found: bool)
    ensures
        found == contains_spec(haystack@, needle@),
{
    if needle.len() > haystack.len() {
        return false;
    }
    if needle.len() == 0 {
        assert(haystack@.subrange(0, 0) =~= needle@);
        assert(occurs_at(haystack@, needle@, 0));
        return true;
    }
    let hlen = haystack.len();
    let last = hlen - needle.len();
    let mut at: usize = 0;
    while at <= last
        invariant
            last + needle@.len() == haystack@.len(),
            needle@.len() >= 1,
            hlen == haystack@.len(),
            at <= last + 1,
            forall|p: int| 0 <= p < at ==> !occurs_at(haystack@, needle@, p),
        decreases last + 1 - at,
    {
        if occurs_at_exec(haystack, needle, at) {
            return true;
        }
        at = at + 1;
    }
    false
}

/// Unicode `White_Space`, the set that std's `char::is_whitespace` tests.
pub open spec fn is_whitespace(c: char) -> bool {
    let v = c as u32;
    ||| 0x9 <= v <= 0xD
    ||| v == 0x20
    ||| v == 0x85
    ||| v == 0xA0
    ||| v == 0x1680
    ||| 0x2000 <= v <= 0x200A
    ||| v == 0x2028
    ||| v == 0x2029
    ||| v == 0x202F
    ||| v == 0x205F
    ||| v == 0x3000
}

pub fn is_whitespace_char(c: char) -> (ws: bool)
    ensures
        ws == is_whitespace(c),
{
    let v = c as u32;
    (0x9 <= v && v <= 0xD) || v == 0x20 || v == 0x85 || v == 0xA0 || v == 0x1680 || (0x2000
        <= v && v <= 0x200A) || v == 0x2028 || v == 0x2029 || v == 0x202F || v == 0x205F || v
        == 0x3000
}

/// `text` without its leading whitespace.
pub open spec fn trim_start_spec(text: Seq<char>) -> Seq<char>
    decreases text.len(),
{
    if text.len() > 0 && is_whitespace(text[0]) {
        trim_start_spec(text.drop_first())
    } else {
        text
    }
}

/// `text` without its trailing whitespace.
pub open spec fn trim_end_spec(text: Seq<char>) -> Seq<char>
    decreases text.len(),
{
    if text.len() > 0 && is_whitespace(text.last()) {
        trim_end_spec(text.drop_last())
    } else {
        text
    }
}

/// `text` without leading and trailing whitespace (std's `str::trim`).
pub open spec fn trim_spec(text: Seq<char>) -> Seq<char> {
    trim_end_spec(trim_start_spec(text))
}

proof fn lemma_trim_start_skip(text: Seq<char>, i: int)
    requires
        0 <= i <= text.len(),
        forall|k: int| 0 <= k < i ==> is_whitespace(#[trigger] text[k]),
    ensures
        trim_start_spec(text) == trim_start_spec(text.skip(i)),
    decreases i,
{
    if i > 0 {
        lemma_trim_start_skip(text.drop_first(), i - 1);
        assert(text.drop_first().skip(i - 1) =~= text.skip(i));
    } else {
        assert(text.skip(0) =~= text);
    }
}

proof fn lemma_trim_end_take(text: Seq<char>, j: int)
    requires
        0 <= j <= text.len(),
        forall|k: int| j <= k < text.len() ==> is_whitespace(#[trigger] text[k]),
    ensures
        trim_end_spec(text) == trim_end_spec(text.take(j)),
    decreases text.len() - j,
{
    if j < text.len() {
        lemma_trim_end_take(text.drop_last(), j);
        assert(text.drop_last().take(j) =~= text.take(j));
    } else {
        assert(text.take(j) =~= text);
    }
}

proof fn lemma_trim_start_shape(text: Seq<char>) -> (k: int)
    ensures
        0 <= k <= text.len(),
        trim_start_spec(text) == text.skip(k),
        trim_start_spec(text).len() == 0 || !is_whitespace(trim_start_spec(text)[0]),
    decreases text.len(),
{
    if text.len() > 0 && is_whitespace(text[0]) {
        let k = lemma_trim_start_shape(text.drop_first());
        assert(text.drop_first().skip(k) =~= text.skip(k + 1));
        k + 1
    } else {
        assert(text.skip(0) =~= text);
        0
    }
}

proof fn lemma_trim_end_shape(text: Seq<char>) -> (k: int)
    ensures
        0 <= k <= text.len(),
        trim_end_spec(text) == text.take(k),
        trim_end_spec(text).len() == 0 || !is_whitespace(trim_end_spec(text).last()),
    decreases text.len(),
{
    if text.len() > 0 && is_whitespace(text.last()) {
        let k = lemma_trim_end_shape(text.drop_last());
        assert(text.drop_last().take(k) =~= text.take(k));
        k
    } else {
        assert(text.take(text.len() as int) =~= text);
        text.len() as int
    }
}

/// Trimming keeps a stretch of the text, and trimming again changes nothing.
pub proof fn lemma_trim_shape(text: Seq<char>) -> (range: (int, int))
    ensures
        0 <= range.0 <= range.1 <= text.len(),
        trim_spec(text) == text.subrange(range.0, range.1),
        trim_spec(trim_spec(text)) == trim_spec(text),
{
    let a = lemma_trim_start_shape(text);
    let started = trim_start_spec(text);
    let b = lemma_trim_end_shape(started);
    let t = trim_spec(text);
    assert(t =~= text.subrange(a, a + b));
    if t.len() > 0 {
        assert(t[0] == started[0]);
        assert(trim_start_spec(t) == t);
        assert(trim_end_spec(t) == t);
    } else {
        assert(trim_start_spec(t) == t);
        assert(trim_end_spec(t) == t);
    }
    (a, a + b)
}

/// The characters of `text` without leading and trailing whitespace.
pub fn trim(text: &[char]) -> (trimmed: Vec<char>)
    ensures
        trimmed@ == trim_spec(text@),
{
    let n = text.len();
    let mut start: usize = 0;
    while start < n && is_whitespace_char(text[start])
        invariant
            n == text@.len(),
            start <= n,
            forall|k: int| 0 <= k < start ==> is_whitespace(#[trigger] text@[k]),
        decreases n - start,
    {
        start = start + 1;
    }
    proof {
        lemma_trim_start_skip(text@, start as int);
    }
    let ghost rest = text@.skip(start as int);
    assert(start < n ==> !is_whitespace(rest[0]));
    assert(trim_start_spec(rest) == rest);
    let mut end: usize = n;
    while end > start && is_whitespace_char(text[end - 1])
        invariant
            n == text@.len(),
            start <= end <= n,
            rest == text@.skip(start as int),
            forall|k: int| end - start <= k < rest.len() ==> is_whitespace(#[trigger] rest[k]),
        decreases end - start,
    {
        end = end - 1;
        assert(rest[end - start] == text@[end as int]);
    }
    proof {
        lemma_trim_end_take(rest, end - start);
        let kept = rest.take(end - start);
        if kept.len() > 0 {
            assert(kept.last() == text@[end - 1]);
        }
        assert(trim_end_spec(kept) == kept);
    }
    let mut trimmed: Vec<char> = Vec::new();
    let mut i: usize = start;
    while i < end
        invariant
            start <= i <= end <= n,
            n == text@.len(),
            trimmed@ == text@.subrange(start as int, i as int),
        decreases end - i,
    {
        trimmed.push(text[i]);
        i = i + 1;
        assert(trimmed@ =~= text@.subrange(start as int, i as int));
    }
    assert(trimmed@ =~= rest.take(end - start));
    trimmed
}

/// ASCII lower-casing of one character (std's `char::to_ascii_lowercase`).
pub open spec fn ascii_lower(c: char) -> char {
    if 'A' <= c <= 'Z' {
        ((c as u32) + 32) as char
    } else {
        c
    }
}

pub fn ascii_lower_char(c: char) -> (lower: char)
    ensures
        lower == ascii_lower(c),
{
    if 'A' <= c && c <= 'Z' {
        let v = (c as u32) + 32;
        proof {
            assert(v <= 0x7A);
        }
        char_from_ascii(v)
    } else {
        c
    }
}

fn char_from_ascii(v: u32) -> (c: char)
    requires
        v < 0x80,
    ensures
        c == v as char,
{
    v as u8 as char
}

/// ASCII lower-casing of a character sequence (std's `str::to_ascii_lowercase`).
pub open spec fn ascii_lower_seq(text: Seq<char>) -> Seq<char> {
    text.map_values(|c: char| ascii_lower(c))
}

pub fn ascii_lowercase(text: &[char]) -> (lower: Vec<char>)
    ensures
        lower@ == ascii_lower_seq(text@),
{
    let mut lower: Vec<char> = Vec::new();
    let mut i: usize = 0;
    while i < text.len()
        invariant
            i <= text@.len(),
            lower@ == ascii_lower_seq(text@.take(i as int)),
        decreases text@.len() - i,
    {
        lower.push(ascii_lower_char(text[i]));
        i = i + 1;
        assert(lower@ =~= ascii_lower_seq(text@.take(i as int)));
    }
    assert(text@.take(text@.len() as int) =~= text@);
    lower
}

/// The pieces of `text` between occurrences of `separator`, empty ones
/// included (std's `str::split` with a character).
pub open spec fn split_on(text: Seq<char>, separator: char) -> Seq<Seq<char>>
    decreases text.len(),
{
    if text.len() == 0 {
        seq![Seq::empty()]
    } else {
        let pieces = split_on(text.drop_last(), separator);
        if text.last() == separator {
            pieces.push(Seq::empty())
        } else {
            pieces.update(pieces.len() - 1, pieces.last().push(text.last()))
        }
    }
}

/// The pieces of `text` between occurrences of `separator`.
pub fn split_on_char(text: &[char], separator: char) -> (pieces: Vec<Vec<char>>)
    ensures
        pieces@.map_values(|p: Vec<char>| p@) == split_on(text@, separator),
{
    let mut pieces: Vec<Vec<char>> = Vec::new();
    let mut current: Vec<char> = Vec::new();
    let mut i: usize = 0;
    while i < text.len()
        invariant
            i <= text@.len(),
            pieces@.map_values(|p: Vec<char>| p@).push(current@) == split_on(
                text@.take(i as int),
                separator,
            ),
        decreases text@.len() - i,
    {
        let ghost before = pieces@.map_values(|p: Vec<char>| p@).push(current@);
        let c = text[i];
        assert(text@.take(i + 1).drop_last() =~= text@.take(i as int));
        if c == separator {
            let finished = current;
            pieces.push(finished);
            current = Vec::new();
            assert(pieces@.map_values(|p: Vec<char>| p@).push(current@) =~= before.push(
                Seq::empty(),
            ));
        } else {
            current.push(c);
            assert(pieces@.map_values(|p: Vec<char>| p@).push(current@) =~= before.update(
                before.len() - 1,
                before.last().push(c),
            ));
        }
        i = i + 1;
    }
    assert(text@.take(text@.len() as int) =~= text@);
    let ghost all = pieces@.map_values(|p: Vec<char>| p@).push(current@);
    pieces.push(current);
    assert(pieces@.map_values(|p: Vec<char>| p@) =~= all);
    pieces
}

/// No piece of a split holds the separator, and there is at least one piece.
pub proof fn lemma_split_has_no_separator(text: Seq<char>, separator: char)
    ensures
        forall|k: int|
            0 <= k < split_on(text, separator).len() ==> !(#[trigger] split_on(
                text,
                separator,
            )[k]).contains(separator),
        split_on(text, separator).len() >= 1,
    decreases text.len(),
{
    if text.len() > 0 {
        lemma_split_has_no_separator(text.drop_last(), separator);
        let pieces = split_on(text.drop_last(), separator);
        if text.last() != separator {
            let last = pieces.last().push(text.last());
            assert forall|i: int| 0 <= i < last.len() implies last[i] != separator by {
                if i < last.len() - 1 {
                    assert(last[i] == pieces.last()[i]);
                    assert(!pieces[pieces.len() - 1].contains(separator));
                }
            }
        }
    }
}

} // verus!
