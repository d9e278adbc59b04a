//! How versions are read.
//!
//! A text spells a version only where it holds what the version is written as: nothing
//! is guessed, filled in or left out.

use vstd::prelude::*;
use crate::{semver, text};

verus! {

proof fn lemma_value_is_positive(s: Seq<char>)
    requires
        s.len() > 0,
        text::all_digits(s),
        s[0] != '0',
    ensures
        text::digits_value(s) > 0,
    decreases s.len(),
{
    if s.len() > 1 {
        let front = s.drop_last();
        assert forall|i: int| 0 <= i < front.len() implies text::is_digit(#[trigger] front[i]) by {
            assert(front[i] == s[i]);
        }
        lemma_value_is_positive(front);
    } else {
        assert(text::is_digit(s[0]));
        assert(s.drop_last() =~= Seq::empty());
        reveal_with_fuel(text::digits_value, 2);
    }
}

proof fn lemma_digits_are_decimal(s: Seq<char>)
    requires
        s.len() > 0,
        text::all_digits(s),
        s.len() > 1 ==> s[0] != '0',
    ensures
        text::decimal(text::digits_value(s)) == s,
    decreases s.len(),
{
    let front = s.drop_last();
    let d = (s.last() as int - '0' as int) as nat;
    assert(text::is_digit(s[s.len() - 1]));
    assert(text::digit_char(d) == s.last());
    if front.len() > 0 {
        assert forall|i: int| 0 <= i < front.len() implies text::is_digit(#[trigger] front[i]) by {
            assert(front[i] == s[i]);
        }
        lemma_digits_are_decimal(front);
        lemma_value_is_positive(front);
        let n = text::digits_value(s);
        assert(n / 10 == text::digits_value(front) && n % 10 == d);
        assert(front.push(s.last()) =~= s);
    } else {
        assert(front =~= Seq::empty());
        assert(text::digits_value(front) == 0);
        assert(s =~= seq![s.last()]);
    }
}

proof fn lemma_number_is_decimal(s: Seq<char>)
    requires
        semver::number_of(s) is Some,
        !s.contains('+'),
    ensures
        text::decimal(semver::number_of(s)->0 as nat) == s,
{
    assert(s.contains(s[0]));
    lemma_digits_are_decimal(s);
}

proof fn lemma_identifiers_are_their_texts(parts: Seq<Seq<char>>)
    requires
        semver::identifiers_in(parts) is Some,
    ensures
        semver::identifier_texts(semver::identifiers_in(parts)->0) == parts,
    decreases parts.len(),
{
    let list = semver::identifiers_in(parts)->0;
    if parts.len() > 0 {
        let s = parts[0];
        let rest = parts.skip(1);
        lemma_identifiers_are_their_texts(rest);
        let first = semver::identifier_of(s)->0;
        if text::all_digits(s) {
            assert(!s.contains('+')) by {
                if s.contains('+') {
                    let k = choose|k: int| 0 <= k < s.len() && s[k] == '+';
                    assert(text::is_digit(s[k]));
                }
            }
            lemma_number_is_decimal(s);
        }
        assert(semver::identifier_text(first) == s);
        let more = semver::identifiers_in(rest)->0;
        assert(list == seq![first] + more);
        assert(semver::identifier_texts(list) =~= seq![s] + semver::identifier_texts(more));
        assert(seq![s] + rest =~= parts);
    } else {
        assert(semver::identifier_texts(list) =~= parts);
    }
}

proof fn lemma_pieces_join(s: Seq<char>, c: char)
    ensures
        text::joined(text::pieces(s, c), seq![c]) == s,
{
    text::replacing_is_joining_anew(s, c, seq![c]);
    lemma_replaced_by_itself(s, c);
}

proof fn lemma_replaced_by_itself(s: Seq<char>, c: char)
    ensures
        text::replaced(s, c, seq![c]) == s,
    decreases s.len(),
{
    if s.len() > 0 {
        lemma_replaced_by_itself(s.drop_last(), c);
        assert(s.drop_last() + seq![s.last()] =~= s);
        assert(s.drop_last().push(s.last()) =~= s);
    } else {
        assert(text::replaced(s, c, seq![c]) =~= s);
    }
}

proof fn lemma_halves_join(s: Seq<char>, c: char)
    ensures
        match text::halves(s, c) {
            Some((left, right)) => s == left + seq![c] + right && !left.contains(c),
            None => !s.contains(c),
        },
{
    let at = text::first_index(s, c) as int;
    text::lemma_first_index(s, c);
    if let Some((left, right)) = text::halves(s, c) {
        assert(s =~= left + seq![c] + right);
        if left.contains(c) {
            let k = choose|k: int| 0 <= k < left.len() && left[k] == c;
            assert(s[k] == c);
        }
    } else if s.contains(c) {
        let k = choose|k: int| 0 <= k < s.len() && s[k] == c;
        assert(s[k] == c);
    }
}

proof fn lemma_bare_version(t: Seq<char>)
    requires
        semver::bare_version_of(t) is Some,
    ensures
        semver::version_text(semver::bare_version_of(t)->0) == t,
{
    let v = semver::bare_version_of(t)->0;
    let sections = semver::sections_of(t)->0;
    lemma_halves_join(t, '+');
    let core = match text::halves(t, '+') {
        Some((core, build)) => core,
        None => t,
    };
    lemma_halves_join(core, '-');
    let numbers = sections.numbers;
    assert(!numbers.contains('+')) by {
        if numbers.contains('+') {
            let k = choose|k: int| 0 <= k < numbers.len() && numbers[k] == '+';
            assert(core[k] == '+');
            assert(core.contains('+'));
        }
    }
    let parts = text::pieces(numbers, '.');
    lemma_pieces_join(numbers, '.');
    assert forall|i: int| 0 <= i < 3 implies !(#[trigger] parts[i]).contains('+') by {
        if parts[i].contains('+') {
            lemma_piece_is_part(parts, seq!['.'], i, '+');
        }
    }
    lemma_number_is_decimal(parts[0]);
    lemma_number_is_decimal(parts[1]);
    lemma_number_is_decimal(parts[2]);
    assert(semver::core_text(v) == numbers) by {
        let two = parts.drop_last();
        assert(two.drop_last() =~= seq![parts[0]]);
        reveal_with_fuel(text::joined, 3);
        assert(text::joined(parts, seq!['.']) =~= parts[0] + seq!['.'] + parts[1] + seq!['.']
            + parts[2]);
    }
    if let Some((left, pre)) = text::halves(core, '-') {
        lemma_identifiers_are_their_texts(text::pieces(pre, '.'));
        lemma_pieces_join(pre, '.');
        text::lemma_pieces_clean(pre, '.');
        assert(semver::identifier_texts(v.prerelease) == text::pieces(pre, '.'));
        assert(semver::identifier_texts(v.prerelease).len() == v.prerelease.len());
        assert(core =~= numbers + (seq!['-'] + semver::prerelease_text(v.prerelease)));
    } else {
        assert(core =~= numbers + Seq::empty());
    }
    assert(semver::version_text(v) =~= t);
}

proof fn lemma_piece_is_part(parts: Seq<Seq<char>>, sep: Seq<char>, i: int, c: char)
    requires
        0 <= i < parts.len(),
        parts[i].contains(c),
    ensures
        text::joined(parts, sep).contains(c),
    decreases parts.len(),
{
    let whole = text::joined(parts, sep);
    if parts.len() > 1 {
        let rest = parts.drop_last();
        let front = text::joined(rest, sep);
        if i < rest.len() {
            assert(rest[i] == parts[i]);
            lemma_piece_is_part(rest, sep, i, c);
            let k = choose|k: int| 0 <= k < front.len() && front[k] == c;
            assert(whole[k] == c);
        } else {
            let last = parts.last();
            let k = choose|k: int| 0 <= k < last.len() && last[k] == c;
            assert(whole[front.len() + sep.len() + k] == c);
        }
    }
}

/// Whether a character may stand in front of a version without counting.
pub open spec fn is_mark(c: char) -> bool {
    text::is_space(c) || c == 'v' || c == '='
}

/// Whether a text holds another between characters that do not count: marks and white
/// space in front, white space behind.
pub open spec fn holds_between(s: Seq<char>, inner: Seq<char>, i: int, j: int) -> bool {
    &&& 0 <= i <= j <= s.len()
    &&& s.subrange(i, j) == inner
    &&& forall|k: int| 0 <= k < i ==> is_mark(#[trigger] s[k])
    &&& forall|k: int| j <= k < s.len() ==> text::is_space(#[trigger] s[k])
}

proof fn lemma_starts_with_space(s: Seq<char>) -> (i: int)
    ensures
        0 <= i <= s.len(),
        text::trimmed_start(s) == s.skip(i),
        forall|k: int| 0 <= k < i ==> text::is_space(#[trigger] s[k]),
    decreases s.len(),
{
    if s.len() > 0 && text::is_space(s[0]) {
        let i = lemma_starts_with_space(s.skip(1));
        assert(s.skip(1).skip(i) =~= s.skip(i + 1));
        assert forall|k: int| 0 <= k < i + 1 implies text::is_space(#[trigger] s[k]) by {
            if k > 0 {
                assert(s.skip(1)[k - 1] == s[k]);
            }
        }
        i + 1
    } else {
        assert(s.skip(0) =~= s);
        0
    }
}

proof fn lemma_ends_with_space(s: Seq<char>) -> (j: int)
    ensures
        0 <= j <= s.len(),
        text::trimmed_end(s) == s.take(j),
        forall|k: int| j <= k < s.len() ==> text::is_space(#[trigger] s[k]),
    decreases s.len(),
{
    if s.len() > 0 && text::is_space(s.last()) {
        let front = s.drop_last();
        let j = lemma_ends_with_space(front);
        assert(front.take(j) =~= s.take(j));
        assert forall|k: int| j <= k < s.len() implies text::is_space(#[trigger] s[k]) by {
            if k < front.len() {
                assert(front[k] == s[k]);
            }
        }
        j
    } else {
        assert(s.take(s.len() as int) =~= s);
        s.len() as int
    }
}

proof fn lemma_starts_with_marks(s: Seq<char>) -> (i: int)
    ensures
        0 <= i <= s.len(),
        semver::without_marks(s) == s.skip(i),
        forall|k: int| 0 <= k < i ==> is_mark(#[trigger] s[k]),
    decreases s.len(),
{
    if s.len() > 0 && (s[0] == 'v' || s[0] == '=') {
        let i = lemma_starts_with_marks(s.skip(1));
        assert(s.skip(1).skip(i) =~= s.skip(i + 1));
        assert forall|k: int| 0 <= k < i + 1 implies is_mark(#[trigger] s[k]) by {
            if k > 0 {
                assert(s.skip(1)[k - 1] == s[k]);
            }
        }
        i + 1
    } else {
        assert(s.skip(0) =~= s);
        0
    }
}

proof fn lemma_trimmed_between(s: Seq<char>) -> (r: (int, int))
    ensures
        0 <= r.0 <= r.1 <= s.len(),
        text::trimmed(s) == s.subrange(r.0, r.1),
        forall|k: int| 0 <= k < r.0 ==> text::is_space(#[trigger] s[k]),
        forall|k: int| r.1 <= k < s.len() ==> text::is_space(#[trigger] s[k]),
{
    let i = lemma_starts_with_space(s);
    let tail = s.skip(i);
    let n = lemma_ends_with_space(tail);
    assert(tail.take(n) =~= s.subrange(i, i + n));
    assert forall|k: int| i + n <= k < s.len() implies text::is_space(#[trigger] s[k]) by {
        assert(tail[k - i] == s[k]);
    }
    (i, i + n)
}

/// A version is read strictly: a text that spells one holds exactly what the version is
/// written as, with nothing around it but white space, and marks in front. So there are
/// no leading zeros, no missing numbers and no empty parts.
pub proof fn versions_are_read_strictly(s: Seq<char>)
    ensures
        semver::version_of(s) matches Some(v) ==> exists|i: int, j: int| #[trigger]
            holds_between(s, semver::version_text(v), i, j),
{
    if let Some(v) = semver::version_of(s) {
        let outer = text::trimmed(s);
        let (a, b) = lemma_trimmed_between(s);
        let m = lemma_starts_with_marks(outer);
        let bare = semver::without_marks(outer);
        let (c, d) = lemma_trimmed_between(bare);
        let t = text::trimmed(bare);
        lemma_bare_version(t);
        let i = a + m + c;
        let j = a + m + d;
        assert(s.subrange(i, j) =~= t);
        assert forall|k: int| 0 <= k < i implies is_mark(#[trigger] s[k]) by {
            if k >= a {
                assert(outer[k - a] == s[k]);
                if k - a >= m {
                    assert(bare[k - a - m] == s[k]);
                }
            }
        }
        assert forall|k: int| j <= k < s.len() implies text::is_space(#[trigger] s[k]) by {
            if k < b {
                assert(outer[k - a] == s[k]);
                assert(bare[k - a - m] == s[k]);
            }
        }
        assert(holds_between(s, semver::version_text(v), i, j));
    }
}

} // verus!
