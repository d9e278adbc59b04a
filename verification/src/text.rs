//! Text as a sequence of characters.
//!
//! Everything that reads or writes a textual format works on `&[char]`: a
//! `&str` is decoded once, cut into slices, and the slices that survive are
//! turned back into `String`s. Each operation is stated over `Seq<char>`, the
//! view that `str` and `String` already have.

use vstd::prelude::*;
use vstd::slice::slice_subrange;

verus! {

/// `String::push`: appends one character to the end.
pub assume_specification[ String::push ](string: &mut String, c: char)
    ensures
        final(string)@ == old(string)@.push(c),
;

/// The characters of a string.
pub fn chars_of(text: &str) -> (chars: Vec<char>)
    ensures
        chars@ == text@,
{
    let mut chars: Vec<char> = Vec::new();
    for c in it: text.chars()
        invariant
            it.seq() == text@,
            chars@ == text@.take(it.index() as int),
    {
        assert(text@.take(it.index() as int).push(c) =~= text@.take(it.index() + 1));
        chars.push(c);
    }
    assert(text@.take(text@.len() as int) =~= text@);
    chars
}

/// A string of the given characters.
pub fn string_of(chars: &[char]) -> (text: String)
    ensures
        text@ == chars@,
{
    let mut text = String::new();
    let mut i: usize = 0;
    while i < chars.len()
        invariant
            i <= chars@.len(),
            text@ == chars@.take(i as int),
        decreases chars@.len() - i,
    {
        assert(chars@.take(i as int).push(chars@[i as int]) =~= chars@.take(i + 1));
        text.push(chars[i]);
        i += 1;
    }
    assert(chars@.take(i as int) =~= chars@);
    text
}


/// Whether two runs of characters are the same.
pub fn same(a: &[char], b: &[char]) -> (r: bool)
    ensures
        r == (a@ == b@),
{
    if a.len() != b.len() {
        return false;
    }
    let mut i: usize = 0;
    while i < a.len()
        invariant
            a@.len() == b@.len(),
            i <= a@.len(),
            forall|j: int| 0 <= j < i ==> a@[j] == b@[j],
        decreases a@.len() - i,
    {
        if a[i] != b[i] {
            return false;
        }
        i += 1;
    }
    assert(a@ =~= b@);
    true
}

/// Whether a run of characters spells the given text.
pub fn spells(chars: &[char], text: &str) -> (r: bool)
    ensures
        r == (chars@ == text@),
{
    let other = chars_of(text);
    same(chars, &other)
}

/// Whether two strings hold the same characters.
pub fn same_text(a: &str, b: &str) -> (r: bool)
    ensures
        r == (a@ == b@),
{
    let left = chars_of(a);
    let right = chars_of(b);
    same(&left, &right)
}

/// The characters from `from` up to but not including `to`.
pub fn part<'a>(s: &'a [char], from: usize, to: usize) -> (r: &'a [char])
    requires
        from <= to <= s@.len(),
    ensures
        r@ == s@.subrange(from as int, to as int),
{
    slice_subrange(s, from, to)
}

/// The characters before position `at`.
pub fn before<'a>(s: &'a [char], at: usize) -> (r: &'a [char])
    requires
        at <= s@.len(),
    ensures
        r@ == s@.take(at as int),
{
    let r = slice_subrange(s, 0, at);
    assert(r@ =~= s@.take(at as int));
    r
}

/// The characters from position `at` on.
pub fn after<'a>(s: &'a [char], at: usize) -> (r: &'a [char])
    requires
        at <= s@.len(),
    ensures
        r@ == s@.skip(at as int),
{
    let r = slice_subrange(s, at, s.len());
    assert(r@ =~= s@.skip(at as int));
    r
}

/// Appends a run of characters.
pub fn append(out: &mut Vec<char>, s: &[char])
    ensures
        final(out)@ == old(out)@ + s@,
{
    out.extend_from_slice(s);
    assert(out@ =~= old(out)@ + s@);
}

/// Appends a string.
pub fn append_str(out: &mut Vec<char>, s: &str)
    ensures
        final(out)@ == old(out)@ + s@,
{
    let mut chars = chars_of(s);
    out.append(&mut chars);
}

/// A string with more text behind it.
pub fn concat(start: String, rest: &str) -> (r: String)
    ensures
        r@ == start@ + rest@,
{
    let mut out = chars_of(start.as_str());
    append_str(&mut out, rest);
    string_of(&out)
}

/// What `format!("{:?}", s)` makes of a string: the text in double quotes, with
/// the escapes of `str`'s `Debug`.
pub uninterp spec fn quoted(s: Seq<char>) -> Seq<char>;

/// `format!` with `{:?}` on a `str`: the quoted, escaped form. Which characters
/// are escaped is `str`'s `Debug`'s own rule and stays unsaid.
#[verifier::external_body]
pub(crate) fn quote(s: &str) -> (r: String)
    ensures
        r@ == quoted(s@),
{
    format!("{:?}", s)
}

/// `std::str::from_utf8`: the text that bytes encode, or none where they are
/// not well-formed UTF-8.
#[verifier::external_body]
pub(crate) fn decode(bytes: &[u8]) -> (r: Option<String>)
    ensures
        r is Some <==> vstd::utf8::valid_utf8(bytes@),
        r matches Some(s) ==> s@ == vstd::utf8::decode_utf8(bytes@),
{
    std::str::from_utf8(bytes).ok().map(|s| s.to_string())
}

// ---------------------------------------------------------------------------
// Searching.

/// Position of the first `c`, or the length when there is none.
pub open spec fn first_index(s: Seq<char>, c: char) -> nat
    decreases s.len(),
{
    if s.len() == 0 || s[0] == c {
        0
    } else {
        1 + first_index(s.skip(1), c)
    }
}

/// What `first_index` means.
pub proof fn lemma_first_index(s: Seq<char>, c: char)
    ensures
        first_index(s, c) <= s.len(),
        first_index(s, c) < s.len() ==> s[first_index(s, c) as int] == c,
        forall|j: int| 0 <= j < first_index(s, c) ==> s[j] != c,
    decreases s.len(),
{
    if s.len() != 0 && s[0] != c {
        lemma_first_index(s.skip(1), c);
        assert forall|j: int| 0 <= j < first_index(s, c) implies s[j] != c by {
            if j > 0 {
                assert(s[j] == s.skip(1)[j - 1]);
            }
        }
    }
}

/// Cutting at a character that the left side does not hold.
pub proof fn lemma_halves(left: Seq<char>, right: Seq<char>, sep: char)
    requires
        !left.contains(sep),
    ensures
        halves(left + (seq![sep] + right), sep) == Some((left, right)),
{
    let s = left + (seq![sep] + right);
    assert forall|j: int| 0 <= j < left.len() implies s[j] != sep by {
        assert(s[j] == left[j]);
    }
    lemma_first_index_is(s, sep, left.len() as int);
    assert(s.take(left.len() as int) =~= left);
    assert(s.skip(left.len() as int + 1) =~= right);
}

/// There is nothing to cut where the separator does not occur.
pub proof fn lemma_halves_none(s: Seq<char>, sep: char)
    ensures
        halves(s, sep) is None <==> !s.contains(sep),
{
    lemma_first_index(s, sep);
    if s.contains(sep) {
        let k = choose|k: int| 0 <= k < s.len() && s[k] == sep;
        assert(first_index(s, sep) <= k);
    }
}

/// The position with the two properties of `lemma_first_index` is the one.
pub proof fn lemma_first_index_is(s: Seq<char>, c: char, at: int)
    requires
        0 <= at <= s.len(),
        forall|j: int| 0 <= j < at ==> s[j] != c,
        at < s.len() ==> s[at] == c,
    ensures
        first_index(s, c) == at,
{
    lemma_first_index(s, c);
    let found = first_index(s, c) as int;
    if found < at {
        assert(s[found] != c);
    }
}

/// Finds the first `c`; the length when there is none.
pub fn index_of(s: &[char], c: char) -> (at: usize)
    ensures
        at == first_index(s@, c),
        at <= s@.len(),
{
    let mut at: usize = 0;
    while at < s.len() && s[at] != c
        invariant
            at <= s@.len(),
            forall|j: int| 0 <= j < at ==> s@[j] != c,
        decreases s@.len() - at,
    {
        at += 1;
    }
    proof {
        lemma_first_index_is(s@, c, at as int);
    }
    at
}

/// Whether `c` occurs.
pub fn has_char(s: &[char], c: char) -> (r: bool)
    ensures
        r == s@.contains(c),
{
    let at: usize = index_of(s, c);
    proof {
        lemma_first_index(s@, c);
        if s@.contains(c) {
            let k = choose|k: int| 0 <= k < s@.len() && s@[k] == c;
            assert(at <= k);
        }
    }
    at < s.len()
}

/// Position of the last `c`.
pub open spec fn last_index(s: Seq<char>, c: char) -> Option<int>
    decreases s.len(),
{
    if s.len() == 0 {
        None
    } else if s.last() == c {
        Some(s.len() - 1)
    } else {
        last_index(s.drop_last(), c)
    }
}

/// The last `c` is the one that only other characters follow.
pub proof fn lemma_last_index(front: Seq<char>, name: Seq<char>, c: char)
    requires
        !name.contains(c),
    ensures
        last_index(front + seq![c] + name, c) == Some(front.len() as int),
        last_index(name, c) is None,
    decreases name.len(),
{
    let whole = front + seq![c] + name;
    if name.len() > 0 {
        let rest = name.drop_last();
        assert(name.contains(name.last()));
        assert(!rest.contains(c)) by {
            if rest.contains(c) {
                let k = choose|k: int| 0 <= k < rest.len() && rest[k] == c;
                assert(name[k] == c);
            }
        }
        assert(whole.drop_last() =~= front + seq![c] + rest);
        lemma_last_index(front, rest, c);
    }
}

/// Finds the last `c`.
pub fn last_index_of(s: &[char], c: char) -> (r: Option<usize>)
    ensures
        r is Some <==> last_index(s@, c) is Some,
        r matches Some(at) ==> last_index(s@, c) == Some(at as int) && at < s@.len(),
{
    let mut n: usize = s.len();
    assert(s@.take(n as int) =~= s@);
    while n > 0 && s[n - 1] != c
        invariant
            n <= s@.len(),
            last_index(s@, c) == last_index(s@.take(n as int), c),
        decreases n,
    {
        assert(s@.take(n as int).drop_last() =~= s@.take(n - 1));
        n -= 1;
    }
    if n > 0 {
        Some(n - 1)
    } else {
        None
    }
}

/// Whether `s` begins with `head`.
pub open spec fn begins(s: Seq<char>, head: Seq<char>) -> bool {
    head.len() <= s.len() && s.take(head.len() as int) == head
}

/// Whether `s` ends with `tail`.
pub open spec fn ends(s: Seq<char>, tail: Seq<char>) -> bool {
    tail.len() <= s.len() && s.skip(s.len() - tail.len()) == tail
}

/// Whether `s` begins with the text `head`.
pub fn begins_with(s: &[char], head: &str) -> (r: bool)
    ensures
        r == begins(s@, head@),
{
    let chars = chars_of(head);
    chars.len() <= s.len() && same(before(s, chars.len()), &chars)
}

/// Whether `s` ends with the text `tail`.
pub fn ends_with(s: &[char], tail: &str) -> (r: bool)
    ensures
        r == ends(s@, tail@),
{
    let chars = chars_of(tail);
    chars.len() <= s.len() && same(after(s, s.len() - chars.len()), &chars)
}

/// What follows the text `head`, where `s` begins with it.
pub fn strip_prefix<'a>(s: &'a [char], head: &str) -> (r: Option<&'a [char]>)
    ensures
        r is Some <==> begins(s@, head@),
        r matches Some(rest) ==> rest@ == s@.skip(head@.len() as int),
{
    let chars = chars_of(head);
    if chars.len() <= s.len() && same(before(s, chars.len()), &chars) {
        Some(after(s, chars.len()))
    } else {
        None
    }
}

/// What precedes the text `tail`, where `s` ends with it.
pub fn strip_suffix<'a>(s: &'a [char], tail: &str) -> (r: Option<&'a [char]>)
    ensures
        r is Some <==> ends(s@, tail@),
        r matches Some(rest) ==> rest@ == s@.take(s@.len() - tail@.len()),
{
    let chars = chars_of(tail);
    if chars.len() <= s.len() && same(after(s, s.len() - chars.len()), &chars) {
        Some(before(s, s.len() - chars.len()))
    } else {
        None
    }
}

/// The two sides of the first `sep`.
pub open spec fn halves(s: Seq<char>, sep: char) -> Option<(Seq<char>, Seq<char>)> {
    let at = first_index(s, sep) as int;
    if at < s.len() {
        Some((s.take(at), s.skip(at + 1)))
    } else {
        None
    }
}

/// Cuts `s` at the first `sep`.
pub fn split_once<'a>(s: &'a [char], sep: char) -> (r: Option<(&'a [char], &'a [char])>)
    ensures
        r is Some <==> halves(s@, sep) is Some,
        r matches Some((left, right)) ==> halves(s@, sep) == Some((left@, right@)),
{
    let at: usize = index_of(s, sep);
    if at < s.len() {
        Some((before(s, at), after(s, at + 1)))
    } else {
        None
    }
}

// ---------------------------------------------------------------------------
// Splitting.

/// The characters that each slice of a list holds.
pub open spec fn views(parts: Seq<&[char]>) -> Seq<Seq<char>> {
    parts.map_values(|p: &[char]| p@)
}

/// Position of the last occurrence of `needle`.
pub open spec fn last_match(s: Seq<char>, needle: Seq<char>) -> Option<int>
    decreases s.len(),
{
    if ends(s, needle) {
        Some(s.len() - needle.len())
    } else if s.len() == 0 {
        None
    } else {
        last_match(s.drop_last(), needle)
    }
}

/// An occurrence is the last one where none lies in the text behind it. A needle
/// that holds its last character only once cannot overlap itself.
pub proof fn lemma_last_match_is(front: Seq<char>, needle: Seq<char>, rest: Seq<char>)
    requires
        needle.len() > 0,
        forall|i: int| 0 <= i < needle.len() - 1 ==> needle[i] != needle.last(),
        last_match(rest, needle) is None,
    ensures
        last_match(front + needle + rest, needle) == Some(front.len() as int),
    decreases rest.len(),
{
    let s = front + needle + rest;
    if rest.len() == 0 {
        assert(s.skip(front.len() as int) =~= needle);
        assert(ends(s, needle));
    } else {
        lemma_last_match_is(front, needle, rest.drop_last());
        assert(s.drop_last() =~= front + needle + rest.drop_last());
        if ends(s, needle) {
            let at = s.len() - needle.len();
            if at >= front.len() + needle.len() {
                assert(rest.skip(rest.len() - needle.len()) =~= s.skip(at));
                assert(ends(rest, needle));
            } else {
                let end = front.len() + needle.len() - 1;
                assert(s[end] == needle.last());
                assert(s.skip(at)[end - at] == s[end]);
                assert(needle[end - at] == needle.last());
            }
        }
    }
}

/// Position of the last occurrence of `needle`.
pub fn rfind_text(s: &[char], needle: &str) -> (r: Option<usize>)
    ensures
        match r {
            Some(at) => last_match(s@, needle@) == Some(at as int) && at + needle@.len() <= s@.len(),
            None => last_match(s@, needle@) is None,
        },
{
    let wanted = chars_of(needle);
    let mut n: usize = s.len();
    assert(s@.take(n as int) =~= s@);
    loop
        invariant
            n <= s@.len(),
            wanted@ == needle@,
            last_match(s@, needle@) == last_match(s@.take(n as int), needle@),
        decreases n,
    {
        let front = before(s, n);
        if ends_with(front, needle) {
            return Some(n - wanted.len());
        }
        if n == 0 {
            return None;
        }
        assert(s@.take(n as int).drop_last() =~= s@.take(n - 1));
        n = n - 1;
    }
}

/// The pieces of `s` between occurrences of `sep`: always at least one.
pub open spec fn pieces(s: Seq<char>, sep: char) -> Seq<Seq<char>>
    decreases s.len(),
{
    let at = first_index(s, sep) as int;
    if at < s.len() {
        seq![s.take(at)] + pieces(s.skip(at + 1), sep)
    } else {
        seq![s]
    }
}

/// Cuts `s` at every `sep`.
pub fn split<'a>(s: &'a [char], sep: char) -> (out: Vec<&'a [char]>)
    ensures
        views(out@) == pieces(s@, sep),
        out@.len() >= 1,
{
    let mut out: Vec<&'a [char]> = Vec::new();
    let mut rest: &'a [char] = s;
    loop
        invariant
            views(out@) + pieces(rest@, sep) == pieces(s@, sep),
        decreases rest@.len(),
    {
        let at: usize = index_of(rest, sep);
        if at >= rest.len() {
            let ghost done = out@;
            out.push(rest);
            assert(views(out@) =~= views(done) + seq![rest@]);
            return out;
        }
        let ghost done = out@;
        out.push(before(rest, at));
        assert(views(out@) =~= views(done) + seq![rest@.take(at as int)]);
        let next = after(rest, at + 1);
        proof {
            let tail = pieces(next@, sep);
            assert((views(done) + seq![rest@.take(at as int)]) + tail =~= views(done) + (
            seq![rest@.take(at as int)] + tail));
        }
        rest = next;
    }
}

/// `pieces` of text in which the separator does not occur.
pub proof fn lemma_pieces_whole(s: Seq<char>, sep: char)
    requires
        !s.contains(sep),
    ensures
        pieces(s, sep) == seq![s],
{
    lemma_first_index(s, sep);
    if first_index(s, sep) < s.len() {
        assert(s.contains(sep));
    }
}

/// `pieces` of text that starts with a piece and a separator.
pub proof fn lemma_pieces_step(head: Seq<char>, rest: Seq<char>, sep: char)
    requires
        !head.contains(sep),
    ensures
        pieces(head + seq![sep] + rest, sep) == seq![head] + pieces(rest, sep),
{
    let s = head + seq![sep] + rest;
    assert forall|j: int| 0 <= j < head.len() implies s[j] != sep by {
        assert(s[j] == head[j]);
    }
    lemma_first_index_is(s, sep, head.len() as int);
    assert(s.take(head.len() as int) =~= head);
    assert(s.skip(head.len() as int + 1) =~= rest);
}

/// No piece holds the separator, and each is part of the text.
pub proof fn lemma_pieces_clean(s: Seq<char>, sep: char)
    ensures
        pieces(s, sep).len() >= 1,
        forall|i: int| 0 <= i < pieces(s, sep).len() ==> !(#[trigger] pieces(s, sep)[i]).contains(sep),
        forall|i: int, c: char|
            0 <= i < pieces(s, sep).len() && (#[trigger] pieces(s, sep)[i]).contains(c)
                ==> #[trigger] s.contains(c),
    decreases s.len(),
{
    lemma_first_index(s, sep);
    let at = first_index(s, sep) as int;
    if at < s.len() {
        let rest = s.skip(at + 1);
        lemma_pieces_clean(rest, sep);
        assert forall|i: int| 0 <= i < pieces(s, sep).len() implies !(#[trigger] pieces(
            s,
            sep,
        )[i]).contains(sep) by {
            if i > 0 {
                assert(pieces(s, sep)[i] == pieces(rest, sep)[i - 1]);
            }
        }
        assert forall|i: int, c: char|
            0 <= i < pieces(s, sep).len() && (#[trigger] pieces(s, sep)[i]).contains(c)
            implies #[trigger] s.contains(c) by {
            if i > 0 {
                assert(pieces(s, sep)[i] == pieces(rest, sep)[i - 1]);
                assert(rest.contains(c));
                let k = choose|k: int| 0 <= k < rest.len() && rest[k] == c;
                assert(s[k + at + 1] == c);
            } else {
                let k = choose|k: int| 0 <= k < s.take(at).len() && s.take(at)[k] == c;
                assert(s[k] == c);
            }
        }
    } else {
        if s.contains(sep) {
            let k = choose|k: int| 0 <= k < s.len() && s[k] == sep;
            assert(s[k] != sep);
        }
    }
}

/// The parts with `sep` between neighbours.
pub open spec fn joined(parts: Seq<Seq<char>>, sep: Seq<char>) -> Seq<char>
    decreases parts.len(),
{
    if parts.len() == 0 {
        Seq::empty()
    } else if parts.len() == 1 {
        parts[0]
    } else {
        joined(parts.drop_last(), sep) + sep + parts.last()
    }
}

/// Joining from the front.
pub proof fn lemma_joined_front(parts: Seq<Seq<char>>, sep: Seq<char>)
    requires
        parts.len() >= 2,
    ensures
        joined(parts, sep) == parts[0] + sep + joined(parts.skip(1), sep),
    decreases parts.len(),
{
    let rest = parts.skip(1);
    reveal_with_fuel(joined, 3);
    if parts.len() == 2 {
        assert(parts.drop_last() =~= seq![parts[0]]);
        assert(rest =~= seq![parts[1]]);
        assert(joined(parts, sep) =~= parts[0] + sep + parts[1]);
    } else {
        lemma_joined_front(parts.drop_last(), sep);
        assert(parts.drop_last().skip(1) =~= rest.drop_last());
        assert(joined(parts, sep) =~= parts[0] + sep + joined(rest, sep));
    }
}

/// The first parts joined are the beginning of all of them joined.
pub proof fn lemma_joined_begins(parts: Seq<Seq<char>>, sep: Seq<char>, n: int)
    requires
        0 <= n <= parts.len(),
    ensures
        joined(parts.take(n), sep).len() <= joined(parts, sep).len(),
        joined(parts, sep).take(joined(parts.take(n), sep).len() as int) == joined(
            parts.take(n),
            sep,
        ),
    decreases parts.len(),
{
    let whole = joined(parts, sep);
    let begin = joined(parts.take(n), sep);
    if n == parts.len() {
        assert(parts.take(n) =~= parts);
        assert(whole.take(whole.len() as int) =~= whole);
    } else if n == 0 {
        assert(begin =~= Seq::empty());
        assert(whole.take(0) =~= begin);
    } else {
        let front = parts.drop_last();
        assert(front.take(n) =~= parts.take(n));
        lemma_joined_begins(front, sep, n);
        assert(whole.take(begin.len() as int) =~= joined(front, sep).take(begin.len() as int));
    }
}

/// Two lists of parts joined in one go are joined by themselves and then to each
/// other.
pub proof fn lemma_joined_concat(a: Seq<Seq<char>>, b: Seq<Seq<char>>, sep: Seq<char>)
    requires
        a.len() > 0,
        b.len() > 0,
    ensures
        joined(a + b, sep) == joined(a, sep) + sep + joined(b, sep),
    decreases b.len(),
{
    let all = a + b;
    assert(all.last() == b.last());
    if b.len() == 1 {
        assert(all.drop_last() =~= a);
        assert(b.last() == b[0]);
    } else {
        let front = b.drop_last();
        assert(all.drop_last() =~= a + front);
        lemma_joined_concat(a, front, sep);
        assert(joined(all, sep) =~= joined(a, sep) + sep + joined(b, sep));
    }
}

/// Cutting undoes joining, where no part holds the separator.
pub proof fn lemma_pieces_joined(parts: Seq<Seq<char>>, sep: char)
    requires
        parts.len() >= 1,
        forall|i: int| 0 <= i < parts.len() ==> !(#[trigger] parts[i]).contains(sep),
    ensures
        pieces(joined(parts, seq![sep]), sep) == parts,
    decreases parts.len(),
{
    if parts.len() == 1 {
        lemma_pieces_whole(parts[0], sep);
        assert(parts =~= seq![parts[0]]);
    } else {
        let rest = parts.skip(1);
        lemma_joined_front(parts, seq![sep]);
        assert forall|i: int| 0 <= i < rest.len() implies !(#[trigger] rest[i]).contains(sep) by {
            assert(rest[i] == parts[i + 1]);
        }
        lemma_pieces_joined(rest, sep);
        lemma_pieces_step(parts[0], joined(rest, seq![sep]), sep);
        assert(parts =~= seq![parts[0]] + rest);
    }
}

/// Every character of joined text is in a part or in the separator.
pub proof fn lemma_joined_contains(parts: Seq<Seq<char>>, sep: Seq<char>, c: char)
    requires
        joined(parts, sep).contains(c),
    ensures
        sep.contains(c) || exists|i: int|
            0 <= i < parts.len() && (#[trigger] parts[i]).contains(c),
    decreases parts.len(),
{
    let all = joined(parts, sep);
    let k = choose|k: int| 0 <= k < all.len() && all[k] == c;
    if parts.len() == 1 {
        assert(parts[0].contains(c));
    } else if parts.len() > 1 {
        let head = joined(parts.drop_last(), sep);
        if k < head.len() {
            assert(head[k] == c);
            assert(head.contains(c));
            lemma_joined_contains(parts.drop_last(), sep, c);
            if !sep.contains(c) {
                let i = choose|i: int|
                    0 <= i < parts.drop_last().len() && (#[trigger] parts.drop_last()[i]).contains(
                        c,
                    );
                assert(parts[i] == parts.drop_last()[i]);
                assert(parts[i].contains(c));
            }
        } else if k < head.len() + sep.len() {
            assert(sep[k - head.len()] == c);
        } else {
            assert(parts.last()[k - head.len() - sep.len()] == c);
            assert(parts[parts.len() - 1].contains(c));
        }
    }
}

/// Joins slices with a separator between neighbours.
pub fn join(parts: &[&[char]], sep: &str) -> (out: Vec<char>)
    ensures
        out@ == joined(views(parts@), sep@),
{
    let mut out: Vec<char> = Vec::new();
    let mut i: usize = 0;
    while i < parts.len()
        invariant
            i <= parts@.len(),
            out@ == joined(views(parts@).take(i as int), sep@),
        decreases parts@.len() - i,
    {
        proof {
            let all = views(parts@);
            assert(all.take(i + 1).drop_last() =~= all.take(i as int));
            assert(all.take(i + 1).last() == parts@[i as int]@);
        }
        if i > 0 {
            append_str(&mut out, sep);
        }
        append(&mut out, parts[i]);
        assert(i == 0 ==> out@ =~= parts@[0]@);
        i += 1;
    }
    assert(views(parts@).take(i as int) =~= views(parts@));
    out
}

// ---------------------------------------------------------------------------
// Whitespace.

/// Unicode `White_Space`, the property that `str::trim` goes by.
pub open spec fn is_space(c: char) -> bool {
    ||| '\u{9}' <= c && c <= '\u{d}'
    ||| c == ' '
    ||| c == '\u{85}'
    ||| c == '\u{a0}'
    ||| c == '\u{1680}'
    ||| '\u{2000}' <= c && c <= '\u{200a}'
    ||| c == '\u{2028}'
    ||| c == '\u{2029}'
    ||| c == '\u{202f}'
    ||| c == '\u{205f}'
    ||| c == '\u{3000}'
}

/// Whether a character is white space.
pub fn space(c: char) -> (r: bool)
    ensures
        r == is_space(c),
{
    ('\u{9}' <= c && c <= '\u{d}') || c == ' ' || c == '\u{85}' || c == '\u{a0}' || c
        == '\u{1680}' || ('\u{2000}' <= c && c <= '\u{200a}') || c == '\u{2028}' || c
        == '\u{2029}' || c == '\u{202f}' || c == '\u{205f}' || c == '\u{3000}'
}

/// `s` without its leading white space.
pub open spec fn trimmed_start(s: Seq<char>) -> Seq<char>
    decreases s.len(),
{
    if s.len() > 0 && is_space(s[0]) {
        trimmed_start(s.skip(1))
    } else {
        s
    }
}

/// `s` without its trailing white space.
pub open spec fn trimmed_end(s: Seq<char>) -> Seq<char>
    decreases s.len(),
{
    if s.len() > 0 && is_space(s.last()) {
        trimmed_end(s.drop_last())
    } else {
        s
    }
}

/// `s` without the white space around it.
pub open spec fn trimmed(s: Seq<char>) -> Seq<char> {
    trimmed_end(trimmed_start(s))
}

/// Drops leading white space.
pub fn trim_start<'a>(s: &'a [char]) -> (r: &'a [char])
    ensures
        r@ == trimmed_start(s@),
        r@.len() <= s@.len(),
        r@.len() > 0 ==> !is_space(r@[0]),
{
    let mut at: usize = 0;
    assert(s@.skip(0) =~= s@);
    while at < s.len() && space(s[at])
        invariant
            at <= s@.len(),
            trimmed_start(s@) == trimmed_start(s@.skip(at as int)),
        decreases s@.len() - at,
    {
        assert(s@.skip(at as int).skip(1) =~= s@.skip(at + 1));
        at += 1;
    }
    after(s, at)
}

/// Drops trailing white space.
pub fn trim_end<'a>(s: &'a [char]) -> (r: &'a [char])
    ensures
        r@ == trimmed_end(s@),
{
    let mut at: usize = s.len();
    assert(s@.take(at as int) =~= s@);
    while at > 0 && space(s[at - 1])
        invariant
            at <= s@.len(),
            trimmed_end(s@) == trimmed_end(s@.take(at as int)),
        decreases at,
    {
        assert(s@.take(at as int).drop_last() =~= s@.take(at - 1));
        at -= 1;
    }
    before(s, at)
}

/// Drops the white space around a run of characters.
pub fn trim<'a>(s: &'a [char]) -> (r: &'a [char])
    ensures
        r@ == trimmed(s@),
{
    trim_end(trim_start(s))
}

/// Text that neither starts nor ends with white space is left alone.
pub proof fn lemma_trimmed_same(s: Seq<char>)
    requires
        s.len() == 0 || (!is_space(s[0]) && !is_space(s.last())),
    ensures
        trimmed(s) == s,
{
}

/// Trimming yields a run of the text that is empty or starts and ends with
/// something else than white space.
pub proof fn lemma_trimmed_ends(s: Seq<char>)
    ensures
        trimmed(s).len() == 0 || (!is_space(trimmed(s)[0]) && !is_space(trimmed(s).last())),
        forall|c: char| trimmed(s).contains(c) ==> s.contains(c),
{
    lemma_trimmed_start_part(s);
    lemma_trimmed_end_part(trimmed_start(s));
}

proof fn lemma_trimmed_start_part(s: Seq<char>)
    ensures
        trimmed_start(s).len() == 0 || !is_space(trimmed_start(s)[0]),
        forall|c: char| trimmed_start(s).contains(c) ==> s.contains(c),
    decreases s.len(),
{
    if s.len() > 0 && is_space(s[0]) {
        lemma_trimmed_start_part(s.skip(1));
        assert forall|c: char| trimmed_start(s).contains(c) implies s.contains(c) by {
            assert(s.skip(1).contains(c));
            let k = choose|k: int| 0 <= k < s.skip(1).len() && s.skip(1)[k] == c;
            assert(s[k + 1] == c);
        }
    }
}

proof fn lemma_trimmed_end_part(s: Seq<char>)
    ensures
        trimmed_end(s).len() <= s.len(),
        trimmed_end(s) == s.take(trimmed_end(s).len() as int),
        trimmed_end(s).len() == 0 || !is_space(trimmed_end(s).last()),
        forall|c: char| trimmed_end(s).contains(c) ==> s.contains(c),
    decreases s.len(),
{
    if s.len() > 0 && is_space(s.last()) {
        lemma_trimmed_end_part(s.drop_last());
        let n = trimmed_end(s).len() as int;
        assert(s.drop_last().take(n) =~= s.take(n));
        assert forall|c: char| trimmed_end(s).contains(c) implies s.contains(c) by {
            let k = choose|k: int| 0 <= k < s.drop_last().len() && s.drop_last()[k] == c;
            assert(s[k] == c);
        }
    } else {
        assert(s.take(s.len() as int) =~= s);
    }
}

/// Text that starts with something else than white space is not blank.
pub proof fn lemma_not_blank(s: Seq<char>)
    requires
        s.len() > 0,
        !is_space(s[0]),
    ensures
        trimmed(s).len() > 0,
    decreases s.len(),
{
    lemma_trimmed_end_keeps(s);
}

proof fn lemma_trimmed_end_keeps(s: Seq<char>)
    requires
        s.len() > 0,
        !is_space(s[0]),
    ensures
        trimmed_end(s).len() > 0,
    decreases s.len(),
{
    if is_space(s.last()) {
        lemma_trimmed_end_keeps(s.drop_last());
    }
}

/// Position of the first white space, or the length when there is none.
pub open spec fn first_space(s: Seq<char>) -> nat
    decreases s.len(),
{
    if s.len() == 0 || is_space(s[0]) {
        0
    } else {
        1 + first_space(s.skip(1))
    }
}

/// What `first_space` means.
pub proof fn lemma_first_space(s: Seq<char>)
    ensures
        first_space(s) <= s.len(),
        first_space(s) < s.len() ==> is_space(s[first_space(s) as int]),
        forall|j: int| 0 <= j < first_space(s) ==> !is_space(s[j]),
    decreases s.len(),
{
    if s.len() != 0 && !is_space(s[0]) {
        lemma_first_space(s.skip(1));
        assert forall|j: int| 0 <= j < first_space(s) implies !is_space(s[j]) by {
            if j > 0 {
                assert(s[j] == s.skip(1)[j - 1]);
            }
        }
    }
}

/// The position with the properties of `lemma_first_space` is the one.
pub proof fn lemma_first_space_is(s: Seq<char>, at: int)
    requires
        0 <= at <= s.len(),
        forall|j: int| 0 <= j < at ==> !is_space(s[j]),
        at < s.len() ==> is_space(s[at]),
    ensures
        first_space(s) == at,
{
    lemma_first_space(s);
    let found = first_space(s) as int;
    if found < at {
        assert(!is_space(s[found]));
    }
}

/// Finds the first white space; the length when there is none.
pub fn space_index(s: &[char]) -> (at: usize)
    ensures
        at == first_space(s@),
        at <= s@.len(),
{
    let mut at: usize = 0;
    while at < s.len() && !space(s[at])
        invariant
            at <= s@.len(),
            forall|j: int| 0 <= j < at ==> !is_space(s@[j]),
        decreases s@.len() - at,
    {
        at += 1;
    }
    proof {
        lemma_first_space_is(s@, at as int);
    }
    at
}

/// The runs of characters between white space.
pub open spec fn words(s: Seq<char>) -> Seq<Seq<char>>
    decreases s.len(),
    when true
    via words_decreases
{
    let t = trimmed_start(s);
    if t.len() == 0 {
        Seq::empty()
    } else {
        seq![t.take(first_space(t) as int)] + words(t.skip(first_space(t) as int))
    }
}

#[via_fn]
proof fn words_decreases(s: Seq<char>) {
    lemma_trimmed_start_shorter(s);
    lemma_first_space(trimmed_start(s));
}

proof fn lemma_trimmed_start_shorter(s: Seq<char>)
    ensures
        trimmed_start(s).len() <= s.len(),
        trimmed_start(s).len() == 0 || !is_space(trimmed_start(s)[0]),
    decreases s.len(),
{
    if s.len() > 0 && is_space(s[0]) {
        lemma_trimmed_start_shorter(s.skip(1));
    }
}

/// Something that can be written as one word.
pub open spec fn is_word(s: Seq<char>) -> bool {
    s.len() > 0 && forall|i: int| 0 <= i < s.len() ==> !is_space(#[trigger] s[i])
}

/// A word ends at the next white space.
pub proof fn lemma_words_step(word: Seq<char>, c: char, rest: Seq<char>)
    requires
        is_word(word),
        is_space(c),
    ensures
        words(word + seq![c] + rest) == seq![word] + words(rest),
{
    let s = word + seq![c] + rest;
    assert(s[0] == word[0]);
    assert(trimmed_start(s) == s);
    assert forall|j: int| 0 <= j < word.len() implies !is_space(s[j]) by {
        assert(s[j] == word[j]);
    }
    lemma_first_space_is(s, word.len() as int);
    assert(s.take(word.len() as int) =~= word);
    let tail = s.skip(word.len() as int);
    assert(tail[0] == c);
    assert(tail.skip(1) =~= rest);
    assert(trimmed_start(tail) == trimmed_start(rest));
    assert(words(tail) == words(rest));
}

/// Text without white space is one word.
pub proof fn lemma_one_word(s: Seq<char>)
    requires
        s.len() > 0,
        forall|i: int| 0 <= i < s.len() ==> !is_space(#[trigger] s[i]),
    ensures
        words(s) == seq![s],
{
    assert(trimmed_start(s) == s);
    lemma_first_space_is(s, s.len() as int);
    let rest = s.skip(s.len() as int);
    assert(rest =~= Seq::empty());
    assert(s.take(s.len() as int) =~= s);
    assert(words(rest) =~= Seq::empty());
    assert(seq![s] + Seq::empty() =~= seq![s]);
}

/// Cuts `s` at white space.
pub fn split_whitespace<'a>(s: &'a [char]) -> (out: Vec<&'a [char]>)
    ensures
        views(out@) == words(s@),
{
    let mut out: Vec<&'a [char]> = Vec::new();
    let mut rest: &'a [char] = s;
    loop
        invariant
            views(out@) + words(rest@) == words(s@),
        decreases rest@.len(),
    {
        let ghost whole = rest@;
        let t = trim_start(rest);
        if t.len() == 0 {
            assert(views(out@) + words(rest@) =~= views(out@));
            return out;
        }
        let at: usize = space_index(t);
        proof {
            lemma_first_space(t@);
        }
        let ghost done = out@;
        out.push(before(t, at));
        assert(views(out@) =~= views(done) + seq![t@.take(at as int)]);
        let next = after(t, at);
        proof {
            assert((views(done) + seq![t@.take(at as int)]) + words(next@) =~= views(done) + (
            seq![t@.take(at as int)] + words(next@)));
        }
        rest = next;
    }
}

// ---------------------------------------------------------------------------
// Lines.

/// A line that was ended by a line feed, without the carriage return that may
/// stand before the line feed.
pub open spec fn without_return(line: Seq<char>) -> Seq<char> {
    if line.len() > 0 && line.last() == '\r' {
        line.drop_last()
    } else {
        line
    }
}

/// The lines of a text. A line feed at the very end starts no further line.
pub open spec fn lines(s: Seq<char>) -> Seq<Seq<char>>
    decreases s.len(),
{
    let at = first_index(s, '\n') as int;
    if s.len() == 0 {
        Seq::empty()
    } else if at < s.len() {
        seq![without_return(s.take(at))] + lines(s.skip(at + 1))
    } else {
        seq![s]
    }
}

/// Cuts a text into lines.
pub fn split_lines<'a>(s: &'a [char]) -> (out: Vec<&'a [char]>)
    ensures
        views(out@) == lines(s@),
{
    let mut out: Vec<&'a [char]> = Vec::new();
    let mut rest: &'a [char] = s;
    loop
        invariant
            views(out@) + lines(rest@) == lines(s@),
        decreases rest@.len(),
    {
        let ghost done = out@;
        if rest.len() == 0 {
            assert(views(out@) + lines(rest@) =~= views(out@));
            return out;
        }
        let at: usize = index_of(rest, '\n');
        if at >= rest.len() {
            out.push(rest);
            assert(views(out@) =~= views(done) + seq![rest@]);
            return out;
        }
        let line = before(rest, at);
        let line = if line.len() > 0 && line[line.len() - 1] == '\r' {
            let short = before(line, line.len() - 1);
            assert(short@ =~= line@.drop_last());
            short
        } else {
            line
        };
        out.push(line);
        assert(views(out@) =~= views(done) + seq![without_return(rest@.take(at as int))]);
        let next = after(rest, at + 1);
        proof {
            let one = seq![without_return(rest@.take(at as int))];
            assert((views(done) + one) + lines(next@) =~= views(done) + (one + lines(next@)));
        }
        rest = next;
    }
}

/// `lines` of text that starts with a line of its own.
pub proof fn lemma_lines_step(line: Seq<char>, rest: Seq<char>)
    requires
        !line.contains('\n'),
        line.len() == 0 || line.last() != '\r',
    ensures
        lines(line + seq!['\n'] + rest) == seq![line] + lines(rest),
{
    let s = line + seq!['\n'] + rest;
    assert forall|j: int| 0 <= j < line.len() implies s[j] != '\n' by {
        assert(s[j] == line[j]);
    }
    lemma_first_index_is(s, '\n', line.len() as int);
    assert(s.take(line.len() as int) =~= line);
    assert(s.skip(line.len() as int + 1) =~= rest);
}

// ---------------------------------------------------------------------------
// Numbers.

/// An ASCII decimal digit.
pub open spec fn is_digit(c: char) -> bool {
    '0' <= c && c <= '9'
}

/// The digit for a number below ten.
pub open spec fn digit_char(d: nat) -> char {
    ('0' as int + d) as char
}

/// A number in decimal, without leading zeros.
pub open spec fn decimal(n: nat) -> Seq<char>
    decreases n,
{
    if n < 10 {
        seq![digit_char(n)]
    } else {
        decimal(n / 10).push(digit_char(n % 10))
    }
}

/// The number that a run of digits spells.
pub open spec fn digits_value(s: Seq<char>) -> nat
    decreases s.len(),
{
    if s.len() == 0 {
        0
    } else {
        digits_value(s.drop_last()) * 10 + (s.last() as int - '0' as int) as nat
    }
}

/// Whether every character is a digit.
pub open spec fn all_digits(s: Seq<char>) -> bool {
    forall|i: int| 0 <= i < s.len() ==> is_digit(#[trigger] s[i])
}

/// What `str::parse` reads as an unsigned number of at most `max`: an
/// optional plus sign, then one or more digits.
pub open spec fn unsigned_value(s: Seq<char>, max: nat) -> Option<nat> {
    let body = if s.len() > 0 && s[0] == '+' {
        s.skip(1)
    } else {
        s
    };
    if body.len() > 0 && all_digits(body) && digits_value(body) <= max {
        Some(digits_value(body))
    } else {
        None
    }
}

/// A number in decimal.
pub fn render_decimal(n: u64) -> (out: Vec<char>)
    ensures
        out@ == decimal(n as nat),
    decreases n,
{
    let digit = (48u8 + (n % 10) as u8) as char;
    if n < 10 {
        let mut out: Vec<char> = Vec::new();
        out.push(digit);
        assert(out@ =~= decimal(n as nat));
        out
    } else {
        let mut out = render_decimal(n / 10);
        out.push(digit);
        out
    }
}

/// More digits spell a larger number.
proof fn lemma_digits_grow(s: Seq<char>, k: int)
    requires
        all_digits(s),
        0 <= k <= s.len(),
    ensures
        digits_value(s.take(k)) <= digits_value(s),
    decreases s.len(),
{
    if k == s.len() {
        assert(s.take(k) =~= s);
    } else {
        lemma_digits_grow(s.drop_last(), k);
        assert(s.drop_last().take(k) =~= s.take(k));
    }
}

/// Reads an unsigned number of at most `max`.
pub fn parse_unsigned(s: &[char], max: u64) -> (r: Option<u64>)
    ensures
        r is Some <==> unsigned_value(s@, max as nat) is Some,
        r matches Some(n) ==> unsigned_value(s@, max as nat) == Some(n as nat),
{
    let body = if s.len() > 0 && s[0] == '+' {
        after(s, 1)
    } else {
        s
    };
    if body.len() == 0 {
        return None;
    }
    let mut value: u64 = 0;
    let mut i: usize = 0;
    let mut fits = true;
    while i < body.len()
        invariant
            i <= body@.len(),
            all_digits(body@.take(i as int)),
            fits ==> value <= max && value == digits_value(body@.take(i as int)),
            !fits ==> digits_value(body@.take(i as int)) > max,
            body@ == if s@.len() > 0 && s@[0] == '+' {
                s@.skip(1)
            } else {
                s@
            },
        decreases body@.len() - i,
    {
        let c = body[i];
        if !('0' <= c && c <= '9') {
            assert(!is_digit(body@[i as int]));
            return None;
        }
        let digit: u64 = (c as u32 - '0' as u32) as u64;
        proof {
            assert(body@.take(i + 1).drop_last() =~= body@.take(i as int));
            assert forall|j: int| 0 <= j < body@.take(i + 1).len() implies is_digit(
                #[trigger] body@.take(i + 1)[j],
            ) by {
                if j < i {
                    assert(body@.take(i + 1)[j] == body@.take(i as int)[j]);
                }
            }
        }
        if fits {
            match value.checked_mul(10) {
                Some(scaled) => match scaled.checked_add(digit) {
                    Some(total) => {
                        if total <= max {
                            value = total;
                        } else {
                            fits = false;
                        }
                    },
                    None => {
                        fits = false;
                    },
                },
                None => {
                    fits = false;
                },
            }
        }
        i += 1;
    }
    assert(body@.take(i as int) =~= body@);
    if fits {
        Some(value)
    } else {
        None
    }
}

/// A number in decimal has only digits, no leading zero unless it is zero,
/// and reads back as itself.
pub proof fn lemma_decimal(n: nat)
    ensures
        decimal(n).len() >= 1,
        all_digits(decimal(n)),
        digits_value(decimal(n)) == n,
        decimal(n).len() > 1 ==> decimal(n)[0] != '0',
        n > 0 ==> decimal(n)[0] != '0',
    decreases n,
{
    reveal_with_fuel(digits_value, 2);
    if n >= 10 {
        lemma_decimal(n / 10);
        let s = decimal(n);
        assert(s.drop_last() =~= decimal(n / 10));
        assert(s[0] == decimal(n / 10)[0]);
        assert forall|i: int| 0 <= i < s.len() implies is_digit(#[trigger] s[i]) by {
            if i < s.len() - 1 {
                assert(s[i] == decimal(n / 10)[i]);
            }
        }
    } else {
        assert(decimal(n).drop_last() =~= Seq::<char>::empty());
    }
}

/// `str::parse` reads back what was written in decimal.
pub proof fn lemma_decimal_reads_back(n: nat, max: nat)
    requires
        n <= max,
    ensures
        unsigned_value(decimal(n), max) == Some(n),
{
    lemma_decimal(n);
    assert(is_digit(decimal(n)[0]));
}

// ---------------------------------------------------------------------------
// Rewriting.

/// `s` with every `c` replaced by `by`.
pub open spec fn replaced(s: Seq<char>, c: char, by: Seq<char>) -> Seq<char>
    decreases s.len(),
{
    if s.len() == 0 {
        Seq::empty()
    } else if s.last() == c {
        replaced(s.drop_last(), c, by) + by
    } else {
        replaced(s.drop_last(), c, by).push(s.last())
    }
}

/// Replaces every `c`.
pub fn replace(s: &[char], c: char, by: &[char]) -> (out: Vec<char>)
    ensures
        out@ == replaced(s@, c, by@),
{
    let mut out: Vec<char> = Vec::new();
    let mut i: usize = 0;
    while i < s.len()
        invariant
            i <= s@.len(),
            out@ == replaced(s@.take(i as int), c, by@),
        decreases s@.len() - i,
    {
        assert(s@.take(i + 1).drop_last() =~= s@.take(i as int));
        if s[i] == c {
            append(&mut out, by);
        } else {
            out.push(s[i]);
        }
        i += 1;
    }
    assert(s@.take(i as int) =~= s@);
    out
}

proof fn lemma_replaced_concat(a: Seq<char>, b: Seq<char>, c: char, by: Seq<char>)
    ensures
        replaced(a + b, c, by) == replaced(a, c, by) + replaced(b, c, by),
    decreases b.len(),
{
    if b.len() == 0 {
        assert(a + b =~= a);
        assert(replaced(a, c, by) + replaced(b, c, by) =~= replaced(a, c, by));
    } else {
        let front = b.drop_last();
        assert((a + b).drop_last() =~= a + front);
        lemma_replaced_concat(a, front, c, by);
        assert(replaced(a + b, c, by) =~= replaced(a, c, by) + replaced(b, c, by));
    }
}

proof fn lemma_replaced_same(s: Seq<char>, c: char, by: Seq<char>)
    requires
        !s.contains(c),
    ensures
        replaced(s, c, by) == s,
    decreases s.len(),
{
    if s.len() > 0 {
        let front = s.drop_last();
        assert(s[s.len() - 1] != c) by {
            if s[s.len() - 1] == c {
                assert(s.contains(c));
            }
        }
        assert(!front.contains(c)) by {
            if front.contains(c) {
                let k = choose|k: int| 0 <= k < front.len() && front[k] == c;
                assert(s[k] == c);
            }
        }
        lemma_replaced_same(front, c, by);
        assert(front.push(s.last()) =~= s);
    } else {
        assert(replaced(s, c, by) =~= s);
    }
}

/// Replacing a character is cutting there and joining with something else.
pub proof fn replacing_is_joining_anew(s: Seq<char>, c: char, by: Seq<char>)
    ensures
        replaced(s, c, by) == joined(pieces(s, c), by),
    decreases s.len(),
{
    let at = first_index(s, c) as int;
    lemma_first_index(s, c);
    if at < s.len() {
        let head = s.take(at);
        let rest = s.skip(at + 1);
        assert(!head.contains(c)) by {
            if head.contains(c) {
                let k = choose|k: int| 0 <= k < head.len() && head[k] == c;
                assert(s[k] == c);
            }
        }
        replacing_is_joining_anew(rest, c, by);
        lemma_replaced_same(head, c, by);
        lemma_replaced_concat(head, seq![c] + rest, c, by);
        lemma_replaced_concat(seq![c], rest, c, by);
        assert(s =~= head + (seq![c] + rest));
        assert(replaced(seq![c], c, by) =~= by) by {
            assert(seq![c].drop_last() =~= Seq::empty());
            reveal_with_fuel(replaced, 2);
        }
        let parts = pieces(s, c);
        lemma_pieces_clean(rest, c);
        assert(parts.skip(1) =~= pieces(rest, c));
        lemma_joined_front(parts, by);
        assert(head + (by + replaced(rest, c, by)) =~= head + by + replaced(rest, c, by));
    } else {
        assert(!s.contains(c)) by {
            if s.contains(c) {
                let k = choose|k: int| 0 <= k < s.len() && s[k] == c;
                assert(at <= k);
            }
        }
        lemma_replaced_same(s, c, by);
    }
}

// ---------------------------------------------------------------------------
// Longer separators.

/// Position of the first occurrence of `pattern`.
pub open spec fn first_match(s: Seq<char>, pattern: Seq<char>) -> Option<nat>
    decreases s.len(),
{
    if begins(s, pattern) {
        Some(0)
    } else if s.len() == 0 {
        None
    } else {
        match first_match(s.skip(1), pattern) {
            Some(at) => Some(at + 1),
            None => None,
        }
    }
}

/// Where a match lies.
pub proof fn lemma_first_match(s: Seq<char>, pattern: Seq<char>)
    ensures
        first_match(s, pattern) matches Some(at) ==> at + pattern.len() <= s.len() && begins(
            s.skip(at as int),
            pattern,
        ),
    decreases s.len(),
{
    if begins(s, pattern) {
        assert(s.skip(0) =~= s);
    } else if s.len() > 0 {
        lemma_first_match(s.skip(1), pattern);
        if let Some(at) = first_match(s.skip(1), pattern) {
            assert(s.skip(1).skip(at as int) =~= s.skip(at as int + 1));
        }
    }
}

/// Finds the first occurrence of `pattern`.
pub fn find_text(s: &[char], pattern: &str) -> (r: Option<usize>)
    ensures
        r is Some <==> first_match(s@, pattern@) is Some,
        r matches Some(at) ==> first_match(s@, pattern@) == Some(at as nat) && at + pattern@.len()
            <= s@.len(),
{
    let mut at: usize = 0;
    assert(s@.skip(0) =~= s@);
    proof {
        lemma_first_match(s@, pattern@);
    }
    loop
        invariant
            at <= s@.len(),
            first_match(s@, pattern@) == match first_match(s@.skip(at as int), pattern@) {
                Some(k) => Some((k + at) as nat),
                None => None,
            },
            first_match(s@, pattern@) matches Some(k) ==> k + pattern@.len() <= s@.len(),
        decreases s@.len() - at,
    {
        if begins_with(after(s, at), pattern) {
            return Some(at);
        }
        if at == s.len() {
            return None;
        }
        assert(s@.skip(at as int).skip(1) =~= s@.skip(at + 1));
        at += 1;
    }
}

/// The pieces of `s` between occurrences of a separator of one or more
/// characters.
pub open spec fn pieces_by(s: Seq<char>, sep: Seq<char>) -> Seq<Seq<char>>
    decreases s.len(),
    when sep.len() > 0
    via pieces_by_decreases
{
    match first_match(s, sep) {
        Some(at) => seq![s.take(at as int)] + pieces_by(s.skip((at + sep.len()) as int), sep),
        None => seq![s],
    }
}

#[via_fn]
proof fn pieces_by_decreases(s: Seq<char>, sep: Seq<char>) {
    lemma_first_match(s, sep);
}

/// Cuts `s` at every `sep`.
pub fn split_text<'a>(s: &'a [char], sep: &str) -> (out: Vec<&'a [char]>)
    requires
        sep@.len() > 0,
    ensures
        views(out@) == pieces_by(s@, sep@),
{
    let width: usize = chars_of(sep).len();
    let mut out: Vec<&'a [char]> = Vec::new();
    let mut rest: &'a [char] = s;
    loop
        invariant
            width == sep@.len(),
            width > 0,
            views(out@) + pieces_by(rest@, sep@) == pieces_by(s@, sep@),
        decreases rest@.len(),
    {
        let ghost done = out@;
        match find_text(rest, sep) {
            None => {
                out.push(rest);
                assert(views(out@) =~= views(done) + seq![rest@]);
                return out;
            },
            Some(at) => {
                out.push(before(rest, at));
                assert(at + width <= rest.len());
                let next = after(rest, at + width);
                proof {
                    let one = seq![rest@.take(at as int)];
                    assert(views(out@) =~= views(done) + one);
                    assert((views(done) + one) + pieces_by(next@, sep@) =~= views(done) + (one
                        + pieces_by(next@, sep@)));
                }
                rest = next;
            },
        }
    }
}

/// How many leading elements two sequences share.
pub open spec fn shared_len<T>(a: Seq<T>, b: Seq<T>) -> nat
    decreases a.len(),
{
    if a.len() > 0 && b.len() > 0 && a[0] == b[0] {
        1 + shared_len(a.skip(1), b.skip(1))
    } else {
        0
    }
}

/// What `shared_len` means.
pub proof fn lemma_shared_len<T>(a: Seq<T>, b: Seq<T>)
    ensures
        shared_len(a, b) <= a.len(),
        shared_len(a, b) <= b.len(),
        a.take(shared_len(a, b) as int) == b.take(shared_len(a, b) as int),
        shared_len(a, b) < a.len() && shared_len(a, b) < b.len() ==> a[shared_len(a, b) as int]
            != b[shared_len(a, b) as int],
    decreases a.len(),
{
    if a.len() > 0 && b.len() > 0 && a[0] == b[0] {
        lemma_shared_len(a.skip(1), b.skip(1));
        let n = shared_len(a, b) as int;
        assert(a.take(n) =~= seq![a[0]] + a.skip(1).take(n - 1));
        assert(b.take(n) =~= seq![b[0]] + b.skip(1).take(n - 1));
    } else {
        assert(a.take(0) =~= b.take(0));
    }
}

/// The number with the properties of `lemma_shared_len` is the one.
pub proof fn lemma_shared_len_is<T>(a: Seq<T>, b: Seq<T>, n: int)
    requires
        0 <= n <= a.len(),
        n <= b.len(),
        forall|i: int| 0 <= i < n ==> a[i] == b[i],
        n < a.len() && n < b.len() ==> a[n] != b[n],
    ensures
        shared_len(a, b) == n,
{
    lemma_shared_len(a, b);
    let k = shared_len(a, b) as int;
    if k < n {
        assert(a[k] == b[k]);
    } else if n < k {
        assert(a.take(k)[n] == b.take(k)[n]);
    }
}

/// The view of a value that may not exist.
pub open spec fn view_of<T: View>(value: Option<T>) -> Option<<T as View>::V> {
    match value {
        Some(value) => Some(value@),
        None => None,
    }
}

/// Puts `front` before a sequence that may not exist.
pub open spec fn prepend<T>(front: Seq<T>, rest: Option<Seq<T>>) -> Option<Seq<T>> {
    match rest {
        Some(rest) => Some(front + rest),
        None => None,
    }
}

/// Two prepends make one.
pub proof fn lemma_prepend<T>(a: Seq<T>, b: Seq<T>, rest: Option<Seq<T>>)
    ensures
        prepend(a, prepend(b, rest)) == prepend(a + b, rest),
{
    if let Some(r) = rest {
        assert(a + (b + r) =~= (a + b) + r);
    }
}

/// Prepending nothing changes nothing.
pub proof fn lemma_prepend_nothing<T>(rest: Option<Seq<T>>)
    ensures
        prepend(Seq::empty(), rest) == rest,
{
    if let Some(r) = rest {
        assert(Seq::empty() + r =~= r);
    }
}

/// The characters that each list of characters holds.
pub open spec fn texts(parts: Seq<Vec<char>>) -> Seq<Seq<char>> {
    parts.map_values(|p: Vec<char>| p@)
}

/// The texts of a list of strings.
pub open spec fn strings(parts: Seq<String>) -> Seq<Seq<char>> {
    parts.map_values(|p: String| p@)
}

/// A copy of a list of strings.
pub fn copy_strings(parts: &Vec<String>) -> (out: Vec<String>)
    ensures
        strings(out@) == strings(parts@),
{
    let mut out: Vec<String> = Vec::new();
    let mut i: usize = 0;
    while i < parts.len()
        invariant
            i <= parts@.len(),
            strings(out@) == strings(parts@).take(i as int),
        decreases parts@.len() - i,
    {
        let ghost done = out@;
        let copy = parts[i].clone();
        out.push(copy);
        assert(strings(out@) =~= strings(done).push(copy@));
        assert(strings(parts@).take(i + 1) =~= strings(parts@).take(i as int).push(copy@));
        i += 1;
    }
    assert(strings(parts@).take(i as int) =~= strings(parts@));
    out
}

} // verus!
