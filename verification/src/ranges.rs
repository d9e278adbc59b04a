//! What a range takes, said of its text.
//!
//! `semver` says how a range is read and when a version is within what was read. Here
//! the two ends are put together: which versions a text takes, in numbers, and how
//! texts that are put together take what they take.

use vstd::prelude::*;
use crate::order;
use crate::semver::{
    self, ComparatorModel, IdentifierModel, Op, PartialModel, RangeModel, VersionModel,
};
use crate::text;

verus! {

/// Whether the numbers of one version come before those of another.
pub open spec fn numbers_before(a: VersionModel, b: VersionModel) -> bool {
    a.major < b.major || (a.major == b.major && (a.minor < b.minor || (a.minor == b.minor && a.patch
        < b.patch)))
}

// ---------------------------------------------------------------------------
// One comparator.

/// A version that a text can spell, without build metadata, is a partial version that
/// names all of its parts.
proof fn lemma_version_is_partial(e: VersionModel)
    requires
        semver::version_spellable(e),
        e.build is None,
    ensures
        semver::partial_of(semver::version_text(e)) == Some(
            PartialModel {
                major: Some(e.major),
                minor: Some(e.minor),
                patch: Some(e.patch),
                prerelease: e.prerelease,
                build: None,
            },
        ),
        semver::version_text(e).len() > 0,
        text::is_digit(semver::version_text(e)[0]),
        forall|i: int|
            0 <= i < semver::version_text(e).len() ==> semver::is_identifier_char(
                #[trigger] semver::version_text(e)[i],
            ) || semver::version_text(e)[i] == '.',
{
    let numbers = semver::core_text(e);
    let t = semver::version_text(e);
    semver::lemma_core_reads_back(e);
    semver::version_reads_back(e);
    if e.prerelease.len() > 0 {
        semver::lemma_prerelease_reads_back(e.prerelease);
    }
    let body = semver::prerelease_text(e.prerelease);
    let pre = if e.prerelease.len() == 0 {
        Seq::<char>::empty()
    } else {
        seq!['-'] + body
    };
    assert(t =~= numbers + pre);
    assert forall|j: int| 0 <= j < t.len() implies semver::is_identifier_char(#[trigger] t[j])
        || t[j] == '.' by {
        if j < numbers.len() {
            assert(t[j] == numbers[j]);
        } else if j > numbers.len() {
            assert(t[j] == body[j - numbers.len() - 1]);
        }
    }
    assert(!t.contains('+'));
    assert(!numbers.contains('-'));
    text::lemma_halves_none(t, '+');
    if e.prerelease.len() == 0 {
        assert(t =~= numbers);
        text::lemma_halves_none(numbers, '-');
        assert(e.prerelease =~= Seq::empty());
    } else {
        text::lemma_halves(numbers, body, '-');
    }
    assert(!text::is_space(t[t.len() - 1]));
    text::lemma_trimmed_same(t);
    assert(semver::without_vs(t) == t);
    reveal_strlit("*");
    reveal_strlit("x");
    reveal_strlit("X");
    assert(!semver::is_wildcard(t)) by {
        assert(text::is_digit(t[0]));
    }
    lemma_three_numbers(e);
}

proof fn lemma_three_numbers(e: VersionModel)
    ensures
        semver::leading_numbers(text::pieces(semver::core_text(e), '.'), 3) == Some(
            seq![e.major, e.minor, e.patch],
        ),
{
    reveal_strlit("*");
    reveal_strlit("x");
    reveal_strlit("X");
    semver::lemma_core_reads_back(e);
    semver::lemma_number_reads_back(e.major);
    semver::lemma_number_reads_back(e.minor);
    semver::lemma_number_reads_back(e.patch);
    let a = text::decimal(e.major as nat);
    let b = text::decimal(e.minor as nat);
    let c = text::decimal(e.patch as nat);
    assert(text::is_digit(a[0]) && text::is_digit(b[0]) && text::is_digit(c[0]));
    assert(!semver::is_wildcard(a) && !semver::is_wildcard(b) && !semver::is_wildcard(c));
    assert(seq![a, b, c].skip(1) =~= seq![b, c]);
    assert(seq![b, c].skip(1) =~= seq![c]);
    assert(seq![c].skip(1) =~= Seq::empty());
    assert(semver::leading_numbers(Seq::empty(), 0) == Some(Seq::<u64>::empty()));
    assert(semver::leading_numbers(seq![c], 1) == Some(seq![e.patch])) by {
        assert(seq![e.patch] + Seq::empty() =~= seq![e.patch]);
    }
    assert(semver::leading_numbers(seq![b, c], 2) == Some(seq![e.minor, e.patch])) by {
        assert(seq![e.minor] + seq![e.patch] =~= seq![e.minor, e.patch]);
    }
    assert(semver::leading_numbers(seq![a, b, c], 3) == Some(seq![e.major, e.minor, e.patch])) by {
        assert(seq![e.major] + seq![e.minor, e.patch] =~= seq![e.major, e.minor, e.patch]);
    }
}

/// A sign that stands in front of a version.
pub open spec fn is_sign(sign: Seq<char>) -> bool {
    sign == ">="@ || sign == "<="@ || sign == "~>"@ || sign == ">"@ || sign == "<"@ || sign == "="@
        || sign == "^"@ || sign == "~"@ || sign == ""@
}

proof fn lemma_sign(sign: Seq<char>, t: Seq<char>)
    requires
        is_sign(sign),
        t.len() > 0,
        text::is_digit(t[0]),
    ensures
        semver::operator_of(sign + t) == (sign, t),
        !semver::is_detached_operator(sign + t),
        sign + t != "-"@,
        forall|i: int|
            0 <= i < sign.len() ==> !text::is_space(#[trigger] sign[i]) && sign[i] != '|',
{
    reveal_strlit(">=");
    reveal_strlit("<=");
    reveal_strlit("~>");
    reveal_strlit(">");
    reveal_strlit("<");
    reveal_strlit("=");
    reveal_strlit("^");
    reveal_strlit("~");
    reveal_strlit("-");
    reveal_strlit("");
    let s = sign + t;
    let n = sign.len() as int;
    assert(s.take(n) =~= sign);
    assert(s.skip(n) =~= t);
    assert(s[n] == t[0]);
    assert(s.last() == t.last());
    assert(forall|h: Seq<char>| #[trigger]
        text::begins(s, h) ==> (h.len() > 0 ==> h[0] == s[0]) && (h.len() > 1 ==> h[1] == s[1])) by {
        assert forall|h: Seq<char>| #[trigger] text::begins(s, h) implies (h.len() > 0 ==> h[0]
            == s[0]) && (h.len() > 1 ==> h[1] == s[1]) by {
            let head = s.take(h.len() as int);
            if h.len() > 0 {
                assert(head[0] == s[0]);
            }
            if h.len() > 1 {
                assert(head[1] == s[1]);
            }
        }
    }
    if sign.len() == 2 {
        assert(text::begins(s, sign));
        assert(s[0] == sign[0] && s[1] == sign[1]);
    } else if sign.len() == 1 {
        assert(text::begins(s, sign));
        assert(s[0] == sign[0]);
        assert(text::is_digit(s[1]));
    } else {
        assert(sign =~= Seq::empty());
        assert(s =~= t);
        assert(text::is_digit(s[0]));
    }
}

/// A text that is one word is a range of one set.
proof fn lemma_one_token(s: Seq<char>)
    requires
        text::is_word(s),
        !s.contains('|'),
        !semver::is_detached_operator(s),
    ensures
        semver::range_of(s) is Some <==> semver::simple_of(s) is Some,
        semver::range_of(s) matches Some(range) ==> range.sets == seq![semver::simple_of(s)->0],
{
    text::lemma_trimmed_same(s);
    semver::lemma_no_bars(s);
    text::lemma_one_word(s);
    let words = seq![s];
    assert(words.skip(1) =~= Seq::empty());
    assert(semver::tokens_in(Seq::empty()) == Some(Seq::<Seq<char>>::empty()));
    assert(semver::tokens_in(words) == Some(seq![s])) by {
        assert(seq![s] + Seq::empty() =~= seq![s]);
    }
    assert(semver::set_in(Seq::empty()) == Some(Seq::<ComparatorModel>::empty()));
    if let Some(set) = semver::simple_of(s) {
        assert(set + Seq::empty() =~= set);
        assert(semver::set_in(words) == Some(set));
        assert(semver::sets_in(Seq::empty()) == Some(Seq::<Seq<ComparatorModel>>::empty()));
        assert(semver::sets_in(words) == Some(seq![set])) by {
            assert(seq![set] + Seq::empty() =~= seq![set]);
        }
    }
}

proof fn lemma_signed(sign: Seq<char>, e: VersionModel)
    requires
        is_sign(sign),
        semver::version_spellable(e),
        e.build is None,
    ensures
        ({
            let s = sign + semver::version_text(e);
            let p = PartialModel {
                major: Some(e.major),
                minor: Some(e.minor),
                patch: Some(e.patch),
                prerelease: e.prerelease,
                build: None,
            };
            &&& text::is_word(s)
            &&& !s.contains('|')
            &&& !semver::is_detached_operator(s)
            &&& s != "-"@
            &&& semver::range_of(s) is Some
            &&& semver::range_of(s)->0.sets == seq![semver::operated(sign, p)]
        }),
{
    let t = semver::version_text(e);
    let s = sign + t;
    lemma_version_is_partial(e);
    lemma_sign(sign, t);
    assert forall|i: int| 0 <= i < s.len() implies !text::is_space(#[trigger] s[i]) && s[i]
        != '|' by {
        if i < sign.len() {
            assert(s[i] == sign[i]);
        } else {
            assert(s[i] == t[i - sign.len()]);
        }
    }
    lemma_one_token(s);
}

/// Whether a version is asked for by a prerelease: it is a release, or the version
/// that was named is a prerelease of the same release.
pub open spec fn is_invited(e: VersionModel, v: VersionModel) -> bool {
    v.prerelease.len() == 0 || (e.prerelease.len() > 0 && e.major == v.major && e.minor == v.minor
        && e.patch == v.patch)
}

/// A sign in front of an exact version takes the versions that stand to it in the
/// relation that the sign names: `<=` and `>=` take it too, `<` and `>` do not, `=` and
/// no sign take nothing else. Prereleases have to be asked for.
pub proof fn signs_mean_what_they_say(e: VersionModel, v: VersionModel)
    requires
        semver::version_spellable(e),
        e.build is None,
    ensures
        ({
            let t = semver::version_text(e);
            let below = order::precedes(semver::version_rank(v), semver::version_rank(e));
            let above = order::precedes(semver::version_rank(e), semver::version_rank(v));
            let asked = is_invited(e, v);
            &&& takes("<"@ + t, v) == Some(below && asked)
            &&& takes("<="@ + t, v) == Some(!above && asked)
            &&& takes(">"@ + t, v) == Some(above && asked)
            &&& takes(">="@ + t, v) == Some(!below && asked)
            &&& takes("="@ + t, v) == Some(!below && !above && asked)
            &&& takes(t, v) == Some(!below && !above && asked)
        }),
{
    let t = semver::version_text(e);
    semver::version_order_is_precedence(v, e);
    semver::version_order_is_precedence(e, v);
    semver::version_order_is_total(v, e, v);
    semver::version_order_is_total(e, v, e);
    lemma_comparator("<"@, Op::Lt, e, v);
    lemma_comparator("<="@, Op::Lte, e, v);
    lemma_comparator(">"@, Op::Gt, e, v);
    lemma_comparator(">="@, Op::Gte, e, v);
    lemma_comparator("="@, Op::Eq, e, v);
    lemma_comparator(""@, Op::Eq, e, v);
    reveal_strlit("");
    assert(""@ + t =~= t);
}

/// Whether the range that a text spells takes a version; nothing where it spells none.
pub open spec fn takes(s: Seq<char>, v: VersionModel) -> Option<bool> {
    match semver::range_of(s) {
        Some(range) => Some(semver::range_takes(range, v)),
        None => None,
    }
}

proof fn lemma_comparator(sign: Seq<char>, op: Op, e: VersionModel, v: VersionModel)
    requires
        sign == "<"@ && op == Op::Lt || sign == "<="@ && op == Op::Lte || sign == ">"@ && op
            == Op::Gt || sign == ">="@ && op == Op::Gte || (sign == "="@ || sign == ""@) && op
            == Op::Eq,
        semver::version_spellable(e),
        e.build is None,
    ensures
        takes(sign + semver::version_text(e), v) == Some(
            semver::within(semver::bound(op, e), v) && is_invited(e, v),
        ),
{
    reveal_strlit(">=");
    reveal_strlit("<=");
    reveal_strlit("~>");
    reveal_strlit(">");
    reveal_strlit("<");
    reveal_strlit("=");
    reveal_strlit("^");
    reveal_strlit("~");
    reveal_strlit("");
    let s = sign + semver::version_text(e);
    lemma_signed(sign, e);
    let p = PartialModel {
        major: Some(e.major),
        minor: Some(e.minor),
        patch: Some(e.patch),
        prerelease: e.prerelease,
        build: None,
    };
    assert(semver::exact_version(p) == Some(e)) by {
        assert(e.build == None::<Seq<char>>);
    }
    assert(sign.len() == 0 || sign[0] == '<' || sign[0] == '>' || sign[0] == '=');
    assert(sign != "^"@ && sign != "~"@ && sign != "~>"@) by {
        assert("^"@[0] == '^' && "~"@[0] == '~' && "~>"@[0] == '~');
    }
    assert(sign.len() == 2 ==> sign[1] == '=');
    let set = semver::operated(sign, p);
    assert(set =~= seq![semver::bound(op, e)]) by {
        assert(">"@ != ">="@ && "<"@ != "<="@);
        assert(">"@[0] != "<"@[0] && ">"@[0] != "="@[0] && "<"@[0] != "="@[0]);
        assert(">="@[0] != "<="@[0]);
    }
    let range = semver::range_of(s)->0;
    semver::lemma_one_set(range, set, v);
    assert(set[0] == semver::bound(op, e));
    if semver::within(semver::bound(op, e), v) && is_invited(e, v) {
        assert(semver::set_takes(set, v)) by {
            if v.prerelease.len() > 0 {
                assert(set[0].version.prerelease.len() > 0 && semver::same_core(set[0].version, v));
            }
        }
    }
    if semver::set_takes(set, v) {
        assert(semver::within(set[0], v));
    }
}

/// The same of releases, in their numbers.
pub proof fn signs_in_numbers(e: VersionModel, v: VersionModel)
    requires
        e.prerelease.len() == 0 && e.build is None,
        v.prerelease.len() == 0,
    ensures
        ({
            let t = semver::core_text(e);
            &&& takes("<"@ + t, v) == Some(numbers_before(v, e))
            &&& takes("<="@ + t, v) == Some(!numbers_before(e, v))
            &&& takes(">"@ + t, v) == Some(numbers_before(e, v))
            &&& takes(">="@ + t, v) == Some(!numbers_before(v, e))
            &&& takes("="@ + t, v) == Some(
                v.major == e.major && v.minor == e.minor && v.patch == e.patch,
            )
            &&& takes(t, v) == Some(
                v.major == e.major && v.minor == e.minor && v.patch == e.patch,
            )
        }),
{
    signs_mean_what_they_say(e, v);
    semver::version_order_is_precedence(v, e);
    semver::version_order_is_precedence(e, v);
    assert(semver::version_text(e) =~= semver::core_text(e));
}

// ---------------------------------------------------------------------------
// Ranges put together.

proof fn lemma_first_token(words: Seq<Seq<char>>)
    requires
        words.len() > 0,
        words[0].len() > 0,
        semver::tokens_in(words) is Some,
    ensures
        semver::tokens_in(words)->0.len() > 0,
        semver::tokens_in(words)->0[0].len() > 0,
        semver::tokens_in(words)->0[0][0] == words[0][0],
{
}

/// What two sets ask for is asked for by both together.
proof fn lemma_both(a: Seq<ComparatorModel>, b: Seq<ComparatorModel>, v: VersionModel)
    requires
        v.prerelease.len() == 0,
    ensures
        semver::set_takes(a + b, v) <==> semver::set_takes(a, v) && semver::set_takes(b, v),
{
    let all = a + b;
    if semver::set_takes(all, v) {
        assert forall|i: int| 0 <= i < a.len() implies semver::within(#[trigger] a[i], v) by {
            assert(all[i] == a[i]);
        }
        assert forall|i: int| 0 <= i < b.len() implies semver::within(#[trigger] b[i], v) by {
            assert(all[a.len() + i] == b[i]);
        }
    }
    if semver::set_takes(a, v) && semver::set_takes(b, v) {
        assert forall|i: int| 0 <= i < all.len() implies semver::within(#[trigger] all[i], v) by {
            if i < a.len() {
                assert(all[i] == a[i]);
            } else {
                assert(all[i] == b[i - a.len()]);
            }
        }
    }
}

/// A range that is one set: what its text spells.
proof fn lemma_single(s: Seq<char>, v: VersionModel)
    requires
        s.len() > 0,
        !text::is_space(s[0]) && !text::is_space(s.last()),
        !s.contains('|'),
    ensures
        takes(s, v) is Some <==> semver::set_of(s) is Some,
        semver::set_of(s) matches Some(set) ==> takes(s, v) == Some(semver::set_takes(set, v)),
{
    text::lemma_trimmed_same(s);
    semver::lemma_no_bars(s);
    let parts = seq![s];
    assert(parts.skip(1) =~= Seq::empty());
    assert(semver::sets_in(Seq::empty()) == Some(Seq::<Seq<ComparatorModel>>::empty()));
    if let Some(set) = semver::set_of(s) {
        assert(semver::sets_in(parts) == Some(seq![set])) by {
            assert(seq![set] + Seq::empty() =~= seq![set]);
        }
        semver::lemma_one_set(semver::range_of(s)->0, set, v);
    }
}

/// A space between comparators means that both must hold.
pub proof fn spaces_mean_and(a: Seq<char>, b: Seq<char>, v: VersionModel)
    requires
        text::is_word(a) && !a.contains('|') && !semver::is_detached_operator(a),
        b.len() > 0 && !b.contains('|') && b[0] != '-',
        !text::is_space(b[0]) && !text::is_space(b.last()),
        takes(a, v) is Some && takes(b, v) is Some,
        v.prerelease.len() == 0,
    ensures
        takes(a + seq![' '] + b, v) == Some(takes(a, v)->0 && takes(b, v)->0),
{
    let s = a + seq![' '] + b;
    assert(!s.contains('|')) by {
        if s.contains('|') {
            let k = choose|k: int| 0 <= k < s.len() && s[k] == '|';
            if k < a.len() {
                assert(a[k] == '|');
            } else {
                assert(k > a.len());
                assert(b[k - a.len() - 1] == '|');
            }
        }
    }
    assert(s[0] == a[0] && s.last() == b.last());
    lemma_single(a, v);
    lemma_single(b, v);
    lemma_single(s, v);
    lemma_one_token(a);
    text::lemma_one_word(a);
    text::lemma_words_step(a, ' ', b);
    let rest = text::words(b);
    assert(text::trimmed_start(b) == b);
    text::lemma_first_space(b);
    assert(rest.len() > 0 && rest[0].len() > 0 && rest[0][0] == b[0]);
    let words = seq![a] + rest;
    assert(words.skip(1) =~= rest);
    let tokens = semver::tokens_in(rest)->0;
    lemma_first_token(rest);
    let all = seq![a] + tokens;
    assert(semver::tokens_in(words) == Some(all));
    reveal_strlit("-");
    assert(all[1] == tokens[0]);
    assert(all[1] != "-"@) by {
        assert("-"@[0] == '-');
    }
    assert(all.skip(1) =~= tokens);
    let first = semver::simple_of(a)->0;
    let set = semver::set_in(tokens)->0;
    assert(semver::set_of(b) == Some(set));
    assert(semver::set_of(s) == Some(first + set));
    assert(semver::set_of(a) == Some(first)) by {
        assert(seq![a].skip(1) =~= Seq::empty());
        assert(semver::tokens_in(Seq::empty()) == Some(Seq::<Seq<char>>::empty()));
        assert(seq![a] + Seq::empty() =~= seq![a]);
        assert(semver::set_in(Seq::empty()) == Some(Seq::<ComparatorModel>::empty()));
        assert(first + Seq::empty() =~= first);
    }
    lemma_both(first, set, v);
}

/// A space at the end adds no word.
proof fn lemma_words_end(a: Seq<char>)
    ensures
        text::words(a + seq![' ']) == text::words(a),
    decreases a.len(),
{
    let s = a + seq![' '];
    if a.len() == 0 {
        assert(s =~= seq![' ']);
        assert(s.skip(1) =~= Seq::empty());
        assert(a =~= Seq::empty());
    } else if text::is_space(a[0]) {
        assert(s.skip(1) =~= a.skip(1) + seq![' ']);
        lemma_words_end(a.skip(1));
        assert(text::words(a) == text::words(a.skip(1)));
        assert(text::words(s) == text::words(s.skip(1)));
    } else {
        let k = text::first_space(a) as int;
        text::lemma_first_space(a);
        if k < a.len() {
            assert(k > 0);
            assert forall|j: int| 0 <= j < k implies !text::is_space(s[j]) by {
                assert(s[j] == a[j]);
            }
            assert(s[k] == a[k]);
            text::lemma_first_space_is(s, k);
            assert(s.take(k) =~= a.take(k));
            assert(s.skip(k) =~= a.skip(k) + seq![' ']);
            lemma_words_end(a.skip(k));
            assert(text::trimmed_start(s) == s);
            assert(text::trimmed_start(a) == a);
        } else {
            assert forall|j: int| 0 <= j < a.len() implies !text::is_space(#[trigger] a[j]) by {}
            text::lemma_words_step(a, ' ', Seq::empty());
            text::lemma_one_word(a);
            assert(a + seq![' '] + Seq::empty() =~= s);
            assert(text::words(Seq::empty()) =~= Seq::empty());
            assert(seq![a] + Seq::empty() =~= seq![a]);
        }
    }
}

/// Where the first bars are.
proof fn lemma_bars(a: Seq<char>, b: Seq<char>)
    requires
        !a.contains('|'),
    ensures
        text::first_match(a + "||"@ + b, "||"@) == Some(a.len()),
        text::pieces_by(a + "||"@ + b, "||"@) == seq![a] + text::pieces_by(b, "||"@),
    decreases a.len(),
{
    reveal_strlit("||");
    let s = a + "||"@ + b;
    if a.len() == 0 {
        assert(s.take(2) =~= "||"@);
    } else {
        assert(!text::begins(s, "||"@)) by {
            if text::begins(s, "||"@) {
                assert(s.take(2)[0] == s[0]);
                assert(a[0] == '|');
                assert(a.contains('|'));
            }
        }
        let rest = a.skip(1);
        assert(!rest.contains('|')) by {
            if rest.contains('|') {
                let k = choose|k: int| 0 <= k < rest.len() && rest[k] == '|';
                assert(a[k + 1] == '|');
            }
        }
        lemma_bars(rest, b);
        assert(s.skip(1) =~= rest + "||"@ + b);
    }
    assert(s.take(a.len() as int) =~= a);
    assert(s.skip(a.len() as int + 2) =~= b);
}

/// A space in front of a union goes to its first part.
proof fn lemma_pieces_padded(b: Seq<char>)
    ensures
        text::pieces_by(b, "||"@).len() > 0,
        text::pieces_by(seq![' '] + b, "||"@).len() == text::pieces_by(b, "||"@).len(),
        text::pieces_by(seq![' '] + b, "||"@)[0] == seq![' '] + text::pieces_by(b, "||"@)[0],
        text::pieces_by(seq![' '] + b, "||"@).skip(1) == text::pieces_by(b, "||"@).skip(1),
{
    reveal_strlit("||");
    let s = seq![' '] + b;
    assert(s.skip(1) =~= b);
    assert(!text::begins(s, "||"@)) by {
        if text::begins(s, "||"@) {
            assert(s.take(2)[0] == ' ');
        }
    }
    text::lemma_first_match(b, "||"@);
    match text::first_match(b, "||"@) {
        Some(at) => {
            assert(text::first_match(s, "||"@) == Some(at + 1));
            assert(s.take(at as int + 1) =~= seq![' '] + b.take(at as int));
            assert(s.skip(at as int + 3) =~= b.skip(at as int + 2));
        },
        None => {},
    }
    assert(text::pieces_by(s, "||"@).skip(1) =~= text::pieces_by(b, "||"@).skip(1));
}

proof fn lemma_union(
    first: Seq<ComparatorModel>,
    others: Seq<Seq<ComparatorModel>>,
    raw: Seq<char>,
    other: Seq<char>,
    v: VersionModel,
)
    ensures
        semver::range_takes(RangeModel { sets: seq![first] + others, raw }, v)
            <==> semver::set_takes(first, v) || semver::range_takes(
            RangeModel { sets: others, raw: other },
            v,
        ),
{
    let all = seq![first] + others;
    let whole = RangeModel { sets: all, raw };
    let rest = RangeModel { sets: others, raw: other };
    if semver::range_takes(whole, v) {
        let i = choose|i: int| 0 <= i < all.len() && semver::set_takes(#[trigger] all[i], v);
        if i > 0 {
            assert(rest.sets[i - 1] == all[i]);
        }
    }
    if semver::set_takes(first, v) {
        assert(whole.sets[0] == first);
    }
    if semver::range_takes(rest, v) {
        let i = choose|i: int| 0 <= i < others.len() && semver::set_takes(#[trigger] others[i], v);
        assert(whole.sets[i + 1] == others[i]);
    }
}

/// Bars between ranges mean that one of them suffices, with spaces around the bars or
/// without.
pub proof fn bars_mean_or(a: Seq<char>, b: Seq<char>, v: VersionModel)
    requires
        a.len() > 0 && !text::is_space(a[0]) && !text::is_space(a.last()) && !a.contains('|'),
        b.len() > 0 && !text::is_space(b[0]) && !text::is_space(b.last()),
        takes(a, v) is Some && takes(b, v) is Some,
    ensures
        takes(a + "||"@ + b, v) == Some(takes(a, v)->0 || takes(b, v)->0),
        takes(a + seq![' '] + "||"@ + (seq![' '] + b), v) == Some(
            takes(a, v)->0 || takes(b, v)->0,
        ),
{
    reveal_strlit("||");
    lemma_single(a, v);
    text::lemma_trimmed_same(b);
    let first = semver::set_of(a)->0;
    let parts = text::pieces_by(b, "||"@);
    let others = semver::sets_in(parts)->0;
    // Without spaces.
    let s = a + "||"@ + b;
    lemma_bars(a, b);
    assert(s[0] == a[0] && s.last() == b.last());
    text::lemma_trimmed_same(s);
    let all = seq![a] + parts;
    assert(all.skip(1) =~= parts);
    assert(semver::sets_in(all) == Some(seq![first] + others));
    lemma_union(first, others, s, semver::range_of(b)->0.raw, v);
    // With spaces.
    let left = a + seq![' '];
    let right = seq![' '] + b;
    let t = left + "||"@ + right;
    assert(!left.contains('|')) by {
        if left.contains('|') {
            let k = choose|k: int| 0 <= k < left.len() && left[k] == '|';
            assert(a[k] == '|');
        }
    }
    lemma_bars(left, right);
    assert(t =~= a + seq![' '] + "||"@ + (seq![' '] + b));
    assert(t[0] == a[0] && t.last() == b.last());
    text::lemma_trimmed_same(t);
    lemma_pieces_padded(b);
    lemma_words_end(a);
    assert(semver::set_of(left) == semver::set_of(a));
    let padded = text::pieces_by(right, "||"@);
    let pad = seq![' '] + parts[0];
    assert(pad.skip(1) =~= parts[0]);
    assert(text::words(pad) == text::words(parts[0]));
    assert(semver::set_of(padded[0]) == semver::set_of(parts[0]));
    assert(semver::sets_in(padded) == semver::sets_in(parts));
    let more = seq![left] + padded;
    assert(more.skip(1) =~= padded);
    assert(semver::sets_in(more) == Some(seq![first] + others));
    lemma_union(first, others, t, semver::range_of(b)->0.raw, v);
}

proof fn lemma_hyphen_words(a: Seq<char>, b: Seq<char>)
    requires
        text::is_word(a) && text::is_word(b),
    ensures
        text::words(a + " - "@ + b) == seq![a, "-"@, b],
{
    reveal_strlit(" - ");
    reveal_strlit("-");
    let dash = "-"@;
    let tail = dash + seq![' '] + b;
    assert(a + " - "@ + b =~= a + seq![' '] + tail);
    assert(!text::is_space('-'));
    text::lemma_words_step(a, ' ', tail);
    text::lemma_words_step(dash, ' ', b);
    text::lemma_one_word(b);
    assert(seq![a] + (seq![dash] + seq![b]) =~= seq![a, dash, b]);
}

proof fn lemma_hyphen_tokens(a: Seq<char>, b: Seq<char>)
    requires
        !semver::is_detached_operator(a) && !semver::is_detached_operator(b),
    ensures
        semver::tokens_in(seq![a, "-"@, b]) == Some(seq![a, "-"@, b]),
{
    reveal_strlit("-");
    reveal_strlit(">=");
    reveal_strlit("<=");
    reveal_strlit(">");
    reveal_strlit("<");
    reveal_strlit("=");
    reveal_strlit("^");
    reveal_strlit("~");
    let dash = "-"@;
    let words = seq![a, dash, b];
    assert(dash[0] == '-');
    assert(!semver::is_detached_operator(dash));
    assert(words.skip(1) =~= seq![dash, b]);
    assert(seq![dash, b].skip(1) =~= seq![b]);
    assert(seq![b].skip(1) =~= Seq::empty());
    assert(semver::tokens_in(Seq::empty()) == Some(Seq::<Seq<char>>::empty()));
    assert(semver::tokens_in(seq![b]) == Some(seq![b])) by {
        assert(seq![b] + Seq::empty() =~= seq![b]);
    }
    assert(semver::tokens_in(seq![dash, b]) == Some(seq![dash, b])) by {
        assert(seq![dash] + seq![b] =~= seq![dash, b]);
    }
    assert(seq![a] + seq![dash, b] =~= words);
}

proof fn lemma_hyphen_set(a: Seq<char>, b: Seq<char>)
    requires
        text::is_word(a) && text::is_word(b),
        !semver::is_detached_operator(a) && !semver::is_detached_operator(b),
        semver::partial_of(a) is Some && semver::partial_of(b) is Some,
    ensures
        semver::set_of(a + " - "@ + b) == Some(
            semver::hyphen_set(semver::partial_of(a)->0, semver::partial_of(b)->0),
        ),
{
    lemma_hyphen_words(a, b);
    lemma_hyphen_tokens(a, b);
    let words = seq![a, "-"@, b];
    let set = semver::hyphen_set(semver::partial_of(a)->0, semver::partial_of(b)->0);
    assert(words[1] == "-"@ && words[2] == b);
    assert(words.skip(3) =~= Seq::empty());
    assert(semver::set_in(Seq::empty()) == Some(Seq::<ComparatorModel>::empty()));
    assert(set + Seq::empty() =~= set);
}

/// `low - high` takes the releases from `low` to `high`, both of them too.
#[verifier::rlimit(30)]
pub proof fn hyphens_take_both_ends(low: VersionModel, high: VersionModel, v: VersionModel)
    requires
        low.prerelease.len() == 0 && low.build is None,
        high.prerelease.len() == 0 && high.build is None,
        v.prerelease.len() == 0,
    ensures
        takes(semver::core_text(low) + " - "@ + semver::core_text(high), v) == Some(
            !numbers_before(v, low) && !numbers_before(high, v),
        ),
{
    reveal_strlit(" - ");
    reveal_strlit("");
    let a = semver::core_text(low);
    let b = semver::core_text(high);
    assert(semver::version_text(low) =~= a && semver::version_text(high) =~= b);
    lemma_signed(""@, low);
    lemma_signed(""@, high);
    assert(""@ + a =~= a && ""@ + b =~= b);
    lemma_version_is_partial(low);
    lemma_version_is_partial(high);
    lemma_hyphen_set(a, b);
    let s = a + " - "@ + b;
    assert(!s.contains('|')) by {
        if s.contains('|') {
            let k = choose|k: int| 0 <= k < s.len() && s[k] == '|';
            if k < a.len() {
                assert(a[k] == '|');
            } else if k >= a.len() + 3 {
                assert(b[k - a.len() - 3] == '|');
            }
        }
    }
    assert(s[0] == a[0] && s.last() == b.last());
    lemma_single(s, v);
    semver::hyphen_takes_in_both_ends(semver::partial_of(a)->0, semver::partial_of(b)->0, v);
}

/// Every release is taken by `*` and by no text at all, and no prerelease is.
pub proof fn stars_take_every_release(v: VersionModel)
    ensures
        takes("*"@, v) == Some(v.prerelease.len() == 0),
        takes(Seq::empty(), v) == Some(v.prerelease.len() == 0),
{
    semver::empty_range_is_any(Seq::empty());
    let range = semver::range_of("*"@)->0;
    semver::lemma_one_set(range, Seq::empty(), v);
}

/// What a comparator is written as means the comparator: it takes the versions within it,
/// as long as prereleases are asked for.
pub proof fn comparators_mean_what_they_are_written_as(op: Op, e: VersionModel, v: VersionModel)
    requires
        semver::version_spellable(e),
        e.build is None,
    ensures
        takes(semver::op_text(op) + semver::version_text(e), v) == Some(
            semver::within(ComparatorModel { op, version: e }, v) && is_invited(e, v),
        ),
{
    lemma_comparator(semver::op_text(op), op, e, v);
}

// ---------------------------------------------------------------------------
// Lines of versions.

/// A text for any number.
pub open spec fn is_wild(s: Seq<char>) -> bool {
    s == "x"@ || s == "X"@ || s == "*"@
}

/// What follows the numbers that a partial version names: nothing, or something for
/// any number.
pub open spec fn is_open_end(s: Seq<char>) -> bool {
    s.len() == 0 || exists|wild: Seq<char>| is_wild(wild) && s == seq!['.'] + wild
}

/// The text of a partial version: one number or two, and an open end.
pub open spec fn line_text(major: u64, minor: Option<u64>, end: Seq<char>) -> Seq<char> {
    match minor {
        None => text::decimal(major as nat) + end,
        Some(minor) => text::decimal(major as nat) + seq!['.'] + text::decimal(minor as nat) + end,
    }
}

proof fn lemma_line_pieces(major: u64, minor: Option<u64>, end: Seq<char>)
    requires
        is_open_end(end),
    ensures
        ({
            let s = line_text(major, minor, end);
            &&& semver::leading_numbers(text::pieces(s, '.'), 3) == Some(
                match minor {
                    None => seq![major],
                    Some(minor) => seq![major, minor],
                },
            )
            &&& s.len() > 0 && text::is_digit(s[0])
            &&& forall|i: int|
                0 <= i < s.len() ==> text::is_digit(#[trigger] s[i]) || s[i] == '.' || s[i] == 'x'
                    || s[i] == 'X' || s[i] == '*'
        }),
{
    reveal_strlit("*");
    reveal_strlit("x");
    reveal_strlit("X");
    let s = line_text(major, minor, end);
    let a = text::decimal(major as nat);
    let b = text::decimal(minor->0 as nat);
    semver::lemma_number_reads_back(major);
    semver::lemma_number_reads_back(minor->0);
    assert(forall|k: int| 0 <= k < a.len() ==> text::is_digit(#[trigger] a[k]));
    assert(forall|k: int| 0 <= k < b.len() ==> text::is_digit(#[trigger] b[k]));
    assert(!a.contains('.') && !b.contains('.'));
    assert(text::is_digit(a[0]) && text::is_digit(b[0]));
    assert(!semver::is_wildcard(a) && !semver::is_wildcard(b));
    let named = match minor {
        None => seq![a],
        Some(_) => seq![a, b],
    };
    let wild = if end.len() == 0 {
        Seq::<char>::empty()
    } else {
        choose|wild: Seq<char>| is_wild(wild) && end == seq!['.'] + wild
    };
    let parts = if end.len() == 0 {
        named
    } else {
        named.push(wild)
    };
    if end.len() > 0 {
        assert(wild.len() == 1);
        assert(!wild.contains('.'));
    }
    assert forall|i: int| 0 <= i < parts.len() implies !(#[trigger] parts[i]).contains('.') by {}
    reveal_with_fuel(text::joined, 4);
    assert(text::joined(seq![a], seq!['.']) == a);
    assert(seq![a, b].drop_last() =~= seq![a]);
    assert(text::joined(seq![a, b], seq!['.']) =~= a + seq!['.'] + b);
    assert(text::joined(named, seq!['.']) + end =~= s);
    if end.len() > 0 {
        assert(parts.drop_last() =~= named);
        assert(text::joined(parts, seq!['.']) =~= text::joined(named, seq!['.']) + seq!['.'] + wild);
    }
    assert(text::joined(parts, seq!['.']) =~= s);
    text::lemma_pieces_joined(parts, '.');
    // The numbers.
    let tail = if end.len() == 0 {
        Seq::<Seq<char>>::empty()
    } else {
        seq![wild]
    };
    assert(semver::leading_numbers(tail, 2) == Some(Seq::<u64>::empty()));
    assert(semver::leading_numbers(tail, 1) == Some(Seq::<u64>::empty()));
    match minor {
        None => {
            assert(parts.skip(1) =~= tail);
            assert(seq![major] + Seq::empty() =~= seq![major]);
        },
        Some(m) => {
            let rest = parts.skip(1);
            assert(rest[0] == b);
            assert(rest.skip(1) =~= tail);
            assert(seq![m] + Seq::empty() =~= seq![m]);
            assert(semver::leading_numbers(rest, 2) == Some(seq![m]));
            assert(seq![major] + seq![m] =~= seq![major, m]);
        },
    }
    assert(s[0] == a[0]);
}

proof fn lemma_line(sign: Seq<char>, major: u64, minor: Option<u64>, end: Seq<char>)
    requires
        is_sign(sign),
        is_open_end(end),
    ensures
        ({
            let s = sign + line_text(major, minor, end);
            let p = PartialModel {
                major: Some(major),
                minor,
                patch: None,
                prerelease: Seq::empty(),
                build: None,
            };
            &&& semver::range_of(s) is Some
            &&& semver::range_of(s)->0.sets == seq![semver::operated(sign, p)]
        }),
{
    let t = line_text(major, minor, end);
    let s = sign + t;
    lemma_line_pieces(major, minor, end);
    lemma_sign(sign, t);
    assert(!text::is_space(t[t.len() - 1]));
    text::lemma_trimmed_same(t);
    assert(semver::without_vs(t) == t);
    reveal_strlit("*");
    reveal_strlit("x");
    reveal_strlit("X");
    assert(!semver::is_wildcard(t));
    assert(!t.contains('+') && !t.contains('-'));
    text::lemma_halves_none(t, '+');
    text::lemma_halves_none(t, '-');
    assert forall|i: int| 0 <= i < s.len() implies !text::is_space(#[trigger] s[i]) && s[i]
        != '|' by {
        if i < sign.len() {
            assert(s[i] == sign[i]);
        } else {
            assert(s[i] == t[i - sign.len()]);
        }
    }
    let p = PartialModel {
        major: Some(major),
        minor,
        patch: None,
        prerelease: Seq::empty(),
        build: None,
    };
    assert(semver::partial_of(t) == Some(p));
    lemma_one_token(s);
}

/// Whether the line of a version comes before a line.
pub open spec fn line_before(v: VersionModel, major: u64, minor: Option<u64>) -> bool {
    v.major < major || (v.major == major && (minor matches Some(m) && v.minor < m))
}

/// Whether a version is on a line.
pub open spec fn is_on_line(v: VersionModel, major: u64, minor: Option<u64>) -> bool {
    v.major == major && (minor matches Some(m) ==> v.minor == m)
}

proof fn lemma_bounds(set: Seq<ComparatorModel>, v: VersionModel)
    requires
        v.prerelease.len() == 0,
    ensures
        set.len() == 1 ==> semver::set_takes(set, v) == semver::within(set[0], v),
        set.len() == 2 ==> semver::set_takes(set, v) == (semver::within(set[0], v)
            && semver::within(set[1], v)),
{
    if semver::set_takes(set, v) {
        if set.len() > 0 {
            assert(semver::within(set[0], v));
        }
        if set.len() > 1 {
            assert(semver::within(set[1], v));
        }
    }
}

/// A partial version stands for the whole line that it names: by itself and with `=` or
/// `~` it takes that line, and a comparison compares with all of it. `^` takes the line
/// too, and behind a major version that is not zero every later minor version of it.
pub proof fn partial_versions_are_lines(
    major: u64,
    minor: Option<u64>,
    end: Seq<char>,
    v: VersionModel,
)
    requires
        is_open_end(end),
        major < u64::MAX,
        minor matches Some(m) ==> m < u64::MAX,
        v.prerelease.len() == 0,
    ensures
        ({
            let t = line_text(major, minor, end);
            let on = is_on_line(v, major, minor);
            let below = line_before(v, major, minor);
            &&& takes(t, v) == Some(on)
            &&& takes("="@ + t, v) == Some(on)
            &&& takes("~"@ + t, v) == Some(on)
            &&& takes("~>"@ + t, v) == Some(on)
            &&& takes("<"@ + t, v) == Some(below)
            &&& takes("<="@ + t, v) == Some(below || on)
            &&& takes(">"@ + t, v) == Some(!below && !on)
            &&& takes(">="@ + t, v) == Some(!below)
            &&& takes("^"@ + t, v) == Some(
                if major > 0 {
                    v.major == major && (minor matches Some(m) ==> v.minor >= m)
                } else {
                    on
                },
            )
        }),
{
    lemma_line_takes("="@, major, minor, end, v);
    lemma_line_takes(""@, major, minor, end, v);
    lemma_line_takes("~"@, major, minor, end, v);
    lemma_line_takes("~>"@, major, minor, end, v);
    lemma_line_takes("<"@, major, minor, end, v);
    lemma_line_takes("<="@, major, minor, end, v);
    lemma_line_takes(">"@, major, minor, end, v);
    lemma_line_takes(">="@, major, minor, end, v);
    lemma_line_takes("^"@, major, minor, end, v);
    reveal_strlit("");
    let t = line_text(major, minor, end);
    assert(""@ + t =~= t);
    let p = PartialModel {
        major: Some(major),
        minor,
        patch: None,
        prerelease: Seq::empty(),
        build: None,
    };
    lemma_operated(p);
    lemma_line_numbers(p, v);
}

proof fn lemma_operated(p: PartialModel)
    ensures
        semver::operated(""@, p) == semver::primitive_set(Op::Eq, p),
        semver::operated("="@, p) == semver::primitive_set(Op::Eq, p),
        semver::operated("<"@, p) == semver::primitive_set(Op::Lt, p),
        semver::operated("<="@, p) == semver::primitive_set(Op::Lte, p),
        semver::operated(">"@, p) == semver::primitive_set(Op::Gt, p),
        semver::operated(">="@, p) == semver::primitive_set(Op::Gte, p),
        semver::operated("~"@, p) == semver::tilde_set(p),
        semver::operated("~>"@, p) == semver::tilde_set(p),
        semver::operated("^"@, p) == semver::caret_set(p),
{
    reveal_strlit("");
    reveal_strlit(">=");
    reveal_strlit("<=");
    reveal_strlit("~>");
    reveal_strlit(">");
    reveal_strlit("<");
    reveal_strlit("=");
    reveal_strlit("^");
    reveal_strlit("~");
    assert("^"@[0] == '^' && "~"@[0] == '~' && "~>"@[0] == '~' && ">"@[0] == '>' && ">="@[0] == '>'
        && "<"@[0] == '<' && "<="@[0] == '<' && "="@[0] == '=');
    assert(""@.len() == 0 && ">"@.len() == 1 && ">="@.len() == 2 && "<"@.len() == 1 && "<="@.len()
        == 2 && "="@.len() == 1 && "~"@.len() == 1 && "~>"@.len() == 2 && "^"@.len() == 1);
}

proof fn lemma_line_numbers(p: PartialModel, v: VersionModel)
    requires
        p.major is Some && p.major->0 < u64::MAX,
        p.minor matches Some(m) ==> m < u64::MAX,
        p.patch is None,
        p.prerelease.len() == 0,
        v.prerelease.len() == 0,
    ensures
        ({
            let on = is_on_line(v, p.major->0, p.minor);
            let below = line_before(v, p.major->0, p.minor);
            &&& semver::set_takes(semver::primitive_set(Op::Eq, p), v) == on
            &&& semver::set_takes(semver::tilde_set(p), v) == on
            &&& semver::set_takes(semver::primitive_set(Op::Lt, p), v) == below
            &&& semver::set_takes(semver::primitive_set(Op::Lte, p), v) == (below || on)
            &&& semver::set_takes(semver::primitive_set(Op::Gt, p), v) == (!below && !on)
            &&& semver::set_takes(semver::primitive_set(Op::Gte, p), v) == !below
            &&& semver::set_takes(semver::caret_set(p), v) == if p.major->0 > 0 {
                v.major == p.major->0 && (p.minor matches Some(m) ==> v.minor >= m)
            } else {
                on
            }
        }),
{
    lemma_bounds(semver::primitive_set(Op::Gt, p), v);
    lemma_bounds(semver::primitive_set(Op::Gte, p), v);
    lemma_bounds(semver::primitive_set(Op::Lt, p), v);
    lemma_bounds(semver::primitive_set(Op::Lte, p), v);
    lemma_bounds(semver::primitive_set(Op::Eq, p), v);
    lemma_bounds(semver::tilde_set(p), v);
    lemma_bounds(semver::caret_set(p), v);
}

proof fn lemma_line_takes(
    sign: Seq<char>,
    major: u64,
    minor: Option<u64>,
    end: Seq<char>,
    v: VersionModel,
)
    requires
        is_sign(sign),
        is_open_end(end),
    ensures
        takes(sign + line_text(major, minor, end), v) == Some(
            semver::set_takes(
                semver::operated(
                    sign,
                    PartialModel {
                        major: Some(major),
                        minor,
                        patch: None,
                        prerelease: Seq::empty(),
                        build: None,
                    },
                ),
                v,
            ),
        ),
{
    lemma_line(sign, major, minor, end);
    let s = sign + line_text(major, minor, end);
    let range = semver::range_of(s)->0;
    semver::lemma_one_set(range, range.sets[0], v);
}

// ---------------------------------------------------------------------------
// Precedence.

/// The numbers of a version decide first. Of versions with the same numbers a release
/// comes after its prereleases, and prereleases go by the first identifier in which
/// they differ: numbers by their value, and before texts; texts by their characters; and
/// where one is the beginning of the other, the longer one comes after.
pub proof fn precedence_goes_from_the_left(
    a: VersionModel,
    b: VersionModel,
    shared: Seq<IdentifierModel>,
    x: Seq<IdentifierModel>,
    y: Seq<IdentifierModel>,
)
    requires
        a.prerelease == shared + x && b.prerelease == shared + y,
    ensures
        ({
            let before = order::precedes(semver::version_rank(a), semver::version_rank(b));
            let same = a.major == b.major && a.minor == b.minor && a.patch == b.patch;
            &&& numbers_before(a, b) ==> before
            &&& numbers_before(b, a) ==> !before
            &&& same && a.prerelease.len() > 0 && b.prerelease.len() == 0 ==> before
            &&& same && a.prerelease.len() == 0 ==> !before
            &&& same && shared.len() > 0 && x.len() == 0 && y.len() > 0 ==> before
            &&& same && shared.len() > 0 && x.len() > 0 && y.len() == 0 ==> !before
            &&& same && x.len() > 0 && y.len() > 0 ==> match (x[0], y[0]) {
                (IdentifierModel::Numeric(m), IdentifierModel::Numeric(n)) => (m < n ==> before)
                    && (m > n ==> !before),
                (IdentifierModel::Numeric(_), IdentifierModel::Alphanumeric(_)) => before,
                (IdentifierModel::Alphanumeric(_), IdentifierModel::Numeric(_)) => !before,
                (IdentifierModel::Alphanumeric(s), IdentifierModel::Alphanumeric(t)) => s != t
                    ==> before == order::precedes(order::text_rank(s), order::text_rank(t)),
            }
        }),
{
    semver::version_order_is_precedence(a, b);
    lemma_shared_identifiers(shared, x, y);
}

proof fn lemma_shared_identifiers(
    shared: Seq<IdentifierModel>,
    x: Seq<IdentifierModel>,
    y: Seq<IdentifierModel>,
)
    ensures
        semver::identifiers_before(shared + x, shared + y) == semver::identifiers_before(x, y),
    decreases shared.len(),
{
    if shared.len() == 0 {
        assert(shared + x =~= x);
        assert(shared + y =~= y);
    } else {
        assert((shared + x).skip(1) =~= shared.skip(1) + x);
        assert((shared + y).skip(1) =~= shared.skip(1) + y);
        lemma_shared_identifiers(shared.skip(1), x, y);
    }
}

/// Texts go by the first character in which they differ; where one is the beginning of
/// the other, the longer one comes after.
pub proof fn texts_go_by_their_characters(shared: Seq<char>, x: Seq<char>, y: Seq<char>)
    ensures
        ({
            let before = order::precedes(
                order::text_rank(shared + x),
                order::text_rank(shared + y),
            );
            &&& x.len() > 0 && y.len() > 0 && x[0] < y[0] ==> before
            &&& x.len() > 0 && y.len() > 0 && x[0] > y[0] ==> !before
            &&& x.len() == 0 && y.len() > 0 ==> before
            &&& y.len() == 0 ==> !before
        }),
{
    let p = order::text_rank(shared);
    let a = order::text_rank(x);
    let b = order::text_rank(y);
    assert(order::text_rank(shared + x) =~= p + a);
    assert(order::text_rank(shared + y) =~= p + b);
    order::lemma_common_prefix(p, a, b);
}

// ---------------------------------------------------------------------------
// Prereleases.

proof fn lemma_between_prerelease(e: VersionModel, upper: VersionModel, v: VersionModel)
    requires
        v.prerelease.len() > 0,
        upper.prerelease.len() == 0,
        numbers_before(e, upper),
    ensures
        semver::set_takes(semver::between(e, upper), v) <==> is_invited(e, v)
            && !semver::version_before(v, e),
{
    let set = semver::between(e, upper);
    assert(set[0] == semver::bound(Op::Gte, e) && set[1] == semver::bound(Op::Lt, upper));
    if semver::set_takes(set, v) {
        assert(semver::within(set[0], v));
        let i = choose|i: int|
            0 <= i < set.len() && (#[trigger] set[i]).version.prerelease.len() > 0
                && semver::same_core(set[i].version, v);
        assert(i == 0);
    }
    if is_invited(e, v) && !semver::version_before(v, e) {
        assert(set[0].version.prerelease.len() > 0 && semver::same_core(set[0].version, v));
        assert(semver::within(set[1], v));
    }
}

/// `^` and `~` take a prerelease only of the very release of which they name one, and
/// then those from the named one on.
pub proof fn prereleases_are_asked_for(e: VersionModel, v: VersionModel)
    requires
        semver::version_spellable(e),
        e.build is None,
        e.major < u64::MAX && e.minor < u64::MAX && e.patch < u64::MAX,
        v.prerelease.len() > 0,
    ensures
        ({
            let t = semver::version_text(e);
            let below = order::precedes(semver::version_rank(v), semver::version_rank(e));
            let asked = e.prerelease.len() > 0 && e.major == v.major && e.minor == v.minor
                && e.patch == v.patch;
            &&& takes("^"@ + t, v) == Some(asked && !below)
            &&& takes("~"@ + t, v) == Some(asked && !below)
        }),
{
    let t = semver::version_text(e);
    let p = PartialModel {
        major: Some(e.major),
        minor: Some(e.minor),
        patch: Some(e.patch),
        prerelease: e.prerelease,
        build: None,
    };
    semver::version_order_is_precedence(v, e);
    lemma_signed("^"@, e);
    lemma_signed("~"@, e);
    lemma_operated(p);
    assert(semver::least_version(p) =~= e);
    let upper = if e.major > 0 {
        semver::release(semver::bump(e.major), 0, 0)
    } else if e.minor > 0 {
        semver::release(0, semver::bump(e.minor), 0)
    } else {
        semver::release(0, 0, semver::bump(e.patch))
    };
    assert(semver::caret_set(p) == semver::between(e, upper));
    lemma_between_prerelease(e, upper, v);
    lemma_between_prerelease(e, semver::release(e.major, semver::bump(e.minor), 0), v);
    semver::lemma_one_set(semver::range_of("^"@ + t)->0, semver::caret_set(p), v);
    semver::lemma_one_set(semver::range_of("~"@ + t)->0, semver::tilde_set(p), v);
}

} // verus!
