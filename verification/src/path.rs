//! The one place path handling lives.
//!
//! Every path that reaches the resolver, the CAS, or the memoization layer is a
//! [`NormalizedPath`]: UTF-8, `/`-separated, and lexically normalized (no `.`,
//! no interior `..`, no repeated or trailing separators). Two spellings of the
//! same location therefore compare equal and hash equal, which is what lets the
//! graph use paths as identity and the memo layer use them as cache keys.
//!
//! `\` is recognized as a separator and `C:/`-style roots are known everywhere,
//! so that a Windows-shaped path in a `package.json` or a CLI argument means
//! the same on every platform.

use vstd::prelude::*;
use crate::order::{Order, Ranked};
use crate::{order, text};

verus! {

// ---------------------------------------------------------------------------
// The normal form.

/// ASCII letters, which can name a drive.
pub open spec fn is_letter(c: char) -> bool {
    ('a' <= c && c <= 'z') || ('A' <= c && c <= 'Z')
}

/// The two separators.
pub open spec fn is_separator(c: char) -> bool {
    c == '/' || c == '\\'
}

/// Length of the root prefix: of `/`, of `C:/`, or of a bare `C:`, which is
/// taken as absolute at the drive root.
pub open spec fn root_len(s: Seq<char>) -> nat {
    if s.len() >= 2 && is_letter(s[0]) && s[1] == ':' {
        if s.len() >= 3 && is_separator(s[2]) {
            3
        } else {
            2
        }
    } else if s.len() >= 1 && is_separator(s[0]) {
        1
    } else {
        0
    }
}

/// The root prefix as it is written.
pub open spec fn root_of(s: Seq<char>) -> Seq<char> {
    s.take(root_len(s) as int)
}

/// The capital of an ASCII letter.
pub open spec fn capital(c: char) -> char {
    if 'a' <= c && c <= 'z' {
        (c as int - 32) as char
    } else {
        c
    }
}

/// The one spelling of a root: `c:\` and `C:/` name the same one.
pub open spec fn normal_root(s: Seq<char>) -> Seq<char> {
    if root_len(s) > 1 {
        seq![capital(s[0]), ':', '/']
    } else if root_len(s) == 1 {
        seq!['/']
    } else {
        Seq::empty()
    }
}

/// Text with `/` for every `\`.
pub open spec fn forward(s: Seq<char>) -> Seq<char> {
    s.map_values(
        |c: char|
            if c == '\\' {
                '/'
            } else {
                c
            },
    )
}

/// The segment that names the directory itself.
pub open spec fn here() -> Seq<char> {
    seq!['.']
}

/// The segment that climbs.
pub open spec fn up() -> Seq<char> {
    seq!['.', '.']
}

/// What one more segment makes of the segments before it. `..` at a root is the
/// root; a relative path keeps climbing, because it has no anchor to stop at.
pub open spec fn with_segment(
    done: Seq<Seq<char>>,
    segment: Seq<char>,
    absolute: bool,
) -> Seq<Seq<char>> {
    if segment.len() == 0 || segment == here() {
        done
    } else if segment != up() {
        done.push(segment)
    } else if done.len() > 0 && done.last() != up() {
        done.drop_last()
    } else if done.len() == 0 && absolute {
        done
    } else {
        done.push(segment)
    }
}

/// The segments that are left when every `.` and every `..` was applied.
pub open spec fn settled(raw: Seq<Seq<char>>, absolute: bool) -> Seq<Seq<char>>
    decreases raw.len(),
{
    if raw.len() == 0 {
        Seq::empty()
    } else {
        with_segment(settled(raw.drop_last(), absolute), raw.last(), absolute)
    }
}

/// The settled segments of a path.
pub open spec fn settled_segments(s: Seq<char>) -> Seq<Seq<char>> {
    settled(text::pieces(forward(s.skip(root_len(s) as int)), '/'), root_len(s) > 0)
}

/// The normal form of a path.
pub open spec fn normal(s: Seq<char>) -> Seq<char> {
    let segments = settled_segments(s);
    if segments.len() > 0 {
        normal_root(s) + text::joined(segments, seq!['/'])
    } else if root_len(s) > 0 {
        normal_root(s)
    } else {
        here()
    }
}

/// A segment as it can stand in a normal form: a name, or `..`.
pub open spec fn is_segment(s: Seq<char>) -> bool {
    s.len() > 0 && s != here() && !s.contains('/') && !s.contains('\\')
}

/// Segments as they stand in a normal form: `..` only in front, and not at all
/// below a root.
pub open spec fn are_settled(segments: Seq<Seq<char>>, absolute: bool) -> bool {
    &&& forall|i: int| 0 <= i < segments.len() ==> is_segment(#[trigger] segments[i])
    &&& forall|i: int|
        0 <= i < segments.len() && #[trigger] segments[i] == up() ==> !absolute && (forall|j: int|
            0 <= j < i ==> #[trigger] segments[j] == up())
}

/// A path in normal form: `.`, or a root and settled segments.
pub open spec fn is_normal(s: Seq<char>) -> bool {
    exists|root: Seq<char>, segments: Seq<Seq<char>>| #[trigger] spelled(s, root, segments)
}

/// Whether a root and settled segments make up a path.
pub open spec fn spelled(s: Seq<char>, root: Seq<char>, segments: Seq<Seq<char>>) -> bool {
    &&& are_settled(segments, root.len() > 0)
    &&& root.len() == 0 || root == seq!['/'] || (root.len() == 3 && 'A' <= root[0] && root[0]
        <= 'Z' && root[1] == ':' && root[2] == '/')
    &&& s == if segments.len() > 0 {
        root + text::joined(segments, seq!['/'])
    } else if root.len() > 0 {
        root
    } else {
        here()
    }
}

proof fn lemma_settled_are_settled(raw: Seq<Seq<char>>, absolute: bool)
    requires
        forall|i: int|
            0 <= i < raw.len() ==> !(#[trigger] raw[i]).contains('/') && !raw[i].contains('\\'),
    ensures
        are_settled(settled(raw, absolute), absolute),
    decreases raw.len(),
{
    if raw.len() > 0 {
        let front = raw.drop_last();
        assert forall|i: int| 0 <= i < front.len() implies !(#[trigger] front[i]).contains('/')
            && !front[i].contains('\\') by {
            assert(front[i] == raw[i]);
        }
        lemma_settled_are_settled(front, absolute);
        let done = settled(front, absolute);
        let last = raw.last();
        assert(!raw[raw.len() - 1].contains('/'));
        let next = with_segment(done, last, absolute);
        assert forall|i: int| 0 <= i < next.len() implies is_segment(#[trigger] next[i]) by {
            if i < done.len() {
                assert(next[i] == done[i]);
            }
        }
        assert forall|i: int| 0 <= i < next.len() && #[trigger] next[i] == up() implies !absolute
            && (forall|j: int| 0 <= j < i ==> #[trigger] next[j] == up()) by {
            if i < done.len() {
                assert(next[i] == done[i]);
            } else if done.len() > 0 {
                assert(done[done.len() - 1] == up());
            }
            assert forall|j: int| 0 <= j < i implies #[trigger] next[j] == up() by {
                assert(next[j] == done[j]);
                if i == done.len() {
                    assert(done[done.len() - 1] == up());
                } else {
                    assert(done[i] == up());
                }
            }
        }
    }
}

/// Pieces of forward text hold no separator.
proof fn lemma_forward_pieces(s: Seq<char>)
    ensures
        forall|i: int|
            0 <= i < text::pieces(forward(s), '/').len() ==> !(#[trigger] text::pieces(
                forward(s),
                '/',
            )[i]).contains('/') && !text::pieces(forward(s), '/')[i].contains('\\'),
{
    let t = forward(s);
    text::lemma_pieces_clean(t, '/');
    assert(!t.contains('\\')) by {
        if t.contains('\\') {
            let k = choose|k: int| 0 <= k < t.len() && t[k] == '\\';
            assert(t[k] != '\\');
        }
    }
}

/// Normalizing yields a normal form: no `.`, no interior `..`, no repeated or
/// trailing separators, one spelling of the root.
pub proof fn normalizing_yields_a_normal_form(s: Seq<char>)
    ensures
        is_normal(normal(s)),
        spelled(normal(s), normal_root(s), settled_segments(s)),
{
    lemma_forward_pieces(s.skip(root_len(s) as int));
    lemma_settled_are_settled(
        text::pieces(forward(s.skip(root_len(s) as int)), '/'),
        root_len(s) > 0,
    );
    if root_len(s) > 1 {
        order::lemma_char_bounds(s[0]);
        let c = s[0];
        if 'a' <= c && c <= 'z' {
            assert(capital(c) as int == c as int - 32);
        }
    }
    assert(spelled(normal(s), normal_root(s), settled_segments(s)));
}

/// Nothing is left to do for settled segments.
proof fn lemma_settled_again(segments: Seq<Seq<char>>, absolute: bool)
    requires
        are_settled(segments, absolute),
    ensures
        settled(segments, absolute) == segments,
    decreases segments.len(),
{
    if segments.len() > 0 {
        let front = segments.drop_last();
        assert forall|i: int| 0 <= i < front.len() implies is_segment(#[trigger] front[i]) by {
            assert(front[i] == segments[i]);
        }
        assert forall|i: int| 0 <= i < front.len() && #[trigger] front[i] == up() implies !absolute
            && (forall|j: int| 0 <= j < i ==> #[trigger] front[j] == up()) by {
            assert(front[i] == segments[i]);
            assert forall|j: int| 0 <= j < i implies #[trigger] front[j] == up() by {
                assert(front[j] == segments[j]);
            }
        }
        lemma_settled_again(front, absolute);
        let last = segments.len() - 1;
        assert(is_segment(segments[last]));
        if segments[last] == up() && front.len() > 0 {
            assert(segments[front.len() - 1] == up());
        }
        assert(front.push(segments.last()) =~= segments);
    } else {
        assert(segments =~= Seq::empty());
    }
}

/// Text without `\` is already forward.
proof fn lemma_forward_same(s: Seq<char>)
    requires
        !s.contains('\\'),
    ensures
        forward(s) == s,
{
    assert forall|i: int| 0 <= i < s.len() implies forward(s)[i] == s[i] by {
        assert(s.contains(s[i]));
    }
    assert(forward(s) =~= s);
}

/// A normal form that does not turn from relative to absolute is its own
/// normal form, so normalizing twice is normalizing once.
///
/// A relative path can start with a segment like `c:`, which by itself reads as
/// a drive: such a path is left out.
pub proof fn normalizing_is_idempotent(s: Seq<char>)
    requires
        root_len(s) > 0 || root_len(normal(s)) == 0,
    ensures
        normal(normal(s)) == normal(s),
        settled_segments(normal(s)) == settled_segments(s),
        normal_root(normal(s)) == normal_root(s),
{
    normalizing_yields_a_normal_form(s);
    let n = normal(s);
    let root = normal_root(s);
    let segments = settled_segments(s);
    let absolute = root_len(s) > 0;
    lemma_settled_again(segments, absolute);
    let body = text::joined(segments, seq!['/']);
    if root_len(s) > 1 {
        assert(n[0] == root[0] && n[1] == ':' && n[2] == '/');
        assert(capital(n[0]) == n[0]);
        assert(normal_root(n) =~= root);
    } else if root_len(s) == 1 {
        assert(n[0] == '/');
        assert(normal_root(n) =~= root);
    }
    assert(root_len(n) == root.len());
    if segments.len() > 0 {
        assert(n.skip(root.len() as int) =~= body);
        assert forall|i: int| 0 <= i < segments.len() implies !(#[trigger] segments[i]).contains(
            '/',
        ) by {
            assert(is_segment(segments[i]));
        }
        assert(!body.contains('\\')) by {
            if body.contains('\\') {
                text::lemma_joined_contains(segments, seq!['/'], '\\');
                if seq!['/'].contains('\\') {
                    let k = choose|k: int| 0 <= k < 1 && seq!['/'][k] == '\\';
                }
                let i = choose|i: int|
                    0 <= i < segments.len() && (#[trigger] segments[i]).contains('\\');
                assert(is_segment(segments[i]));
            }
        }
        lemma_forward_same(body);
        text::lemma_pieces_joined(segments, '/');
    } else if absolute {
        assert(n.skip(root.len() as int) =~= Seq::empty());
        assert(forward(Seq::empty()) =~= Seq::empty());
        text::lemma_pieces_whole(Seq::empty(), '/');
        let raw = seq![Seq::<char>::empty()];
        assert(raw.drop_last() =~= Seq::empty());
        reveal_with_fuel(settled, 2);
        assert(settled(raw, absolute) =~= Seq::empty());
    } else {
        assert(n.skip(0) =~= here());
        assert(!here().contains('\\') && !here().contains('/'));
        lemma_forward_same(here());
        text::lemma_pieces_whole(here(), '/');
        let raw = seq![here()];
        assert(raw.drop_last() =~= Seq::empty());
        reveal_with_fuel(settled, 2);
        assert(settled(raw, absolute) =~= Seq::empty());
    }
}

fn letter(c: char) -> (r: bool)
    ensures
        r == is_letter(c),
{
    ('a' <= c && c <= 'z') || ('A' <= c && c <= 'Z')
}

fn separator(c: char) -> (r: bool)
    ensures
        r == is_separator(c),
{
    c == '/' || c == '\\'
}

/// Length of the root prefix.
pub fn root_prefix(s: &[char]) -> (r: usize)
    ensures
        r == root_len(s@),
        r <= s@.len(),
{
    if s.len() >= 2 && letter(s[0]) && s[1] == ':' {
        if s.len() >= 3 && separator(s[2]) {
            3
        } else {
            2
        }
    } else if s.len() >= 1 && separator(s[0]) {
        1
    } else {
        0
    }
}

fn turn_forward(s: &[char]) -> (out: Vec<char>)
    ensures
        out@ == forward(s@),
{
    let mut out: Vec<char> = Vec::new();
    let mut i: usize = 0;
    while i < s.len()
        invariant
            i <= s@.len(),
            out@ == forward(s@).take(i as int),
        decreases s@.len() - i,
    {
        let c = if s[i] == '\\' {
            '/'
        } else {
            s[i]
        };
        out.push(c);
        assert(out@ =~= forward(s@).take(i + 1));
        i += 1;
    }
    assert(forward(s@).take(i as int) =~= forward(s@));
    out
}

fn names_here(s: &[char]) -> (r: bool)
    ensures
        r == (s@ == here()),
{
    let r = s.len() == 1 && s[0] == '.';
    assert(r ==> s@ =~= here());
    r
}

fn climbs(s: &[char]) -> (r: bool)
    ensures
        r == (s@ == up()),
{
    let r = s.len() == 2 && s[0] == '.' && s[1] == '.';
    assert(r ==> s@ =~= up());
    r
}

/// The normal form of a path.
pub fn normalize(s: &[char]) -> (out: Vec<char>)
    ensures
        out@ == normal(s@),
{
    let root: usize = root_prefix(s);
    let absolute = root > 0;
    let rest = turn_forward(text::after(s, root));
    let raw = text::split(&rest, '/');
    let ghost all = text::pieces(rest@, '/');
    let mut segments: Vec<&[char]> = Vec::new();
    let mut i: usize = 0;
    assert(text::views(segments@) =~= settled(all.take(0), absolute));
    while i < raw.len()
        invariant
            i <= raw@.len(),
            text::views(raw@) == all,
            text::views(segments@) == settled(all.take(i as int), absolute),
        decreases raw@.len() - i,
    {
        let ghost done = text::views(segments@);
        proof {
            assert(all.take(i + 1).drop_last() =~= all.take(i as int));
            assert(all.take(i + 1).last() == raw@[i as int]@);
            assert(done.len() == segments@.len());
            if segments@.len() > 0 {
                assert(done.last() == segments@[segments@.len() - 1]@);
            }
        }
        let segment = raw[i];
        if segment.len() == 0 || names_here(segment) {
        } else if !climbs(segment) {
            segments.push(segment);
            assert(text::views(segments@) =~= done.push(segment@));
        } else if segments.len() > 0 && !climbs(segments[segments.len() - 1]) {
            segments.pop();
            assert(text::views(segments@) =~= done.drop_last());
        } else if segments.len() == 0 && absolute {
        } else {
            segments.push(segment);
            assert(text::views(segments@) =~= done.push(segment@));
        }
        i += 1;
    }
    assert(all.take(i as int) =~= all);
    let mut out: Vec<char> = Vec::new();
    if root > 1 {
        let c = s[0];
        if 'a' <= c && c <= 'z' {
            let code: u8 = (c as u32 - 32) as u8;
            out.push(code as char);
        } else {
            out.push(c);
        }
        out.push(':');
        out.push('/');
    } else if root == 1 {
        out.push('/');
    }
    assert(out@ =~= normal_root(s@));
    assert(text::views(segments@).len() == segments@.len());
    if segments.len() > 0 {
        text::append(&mut out, &text::join(&segments, "/"));
        proof {
            reveal_strlit("/");
            assert("/"@ =~= seq!['/']);
        }
    } else if !absolute {
        out.push('.');
        assert(out@ =~= here());
    }
    out
}

// ---------------------------------------------------------------------------
// Paths.

/// Failure to bring a native path into normal form.
#[derive(PartialEq, Eq, Debug)]
pub enum PathError {
    /// Paths are text: they end up in lockfiles, cache keys, and JSON output. A
    /// path that is not UTF-8 cannot round-trip through those, and lossy
    /// conversion would map two distinct files onto one cache key.
    NonUtf8(Vec<u8>),
}

/// What `String::from_utf8_lossy` makes of bytes.
pub uninterp spec fn lossy_text(bytes: Seq<u8>) -> Seq<char>;

/// `String::from_utf8_lossy`: the text that bytes encode, with a replacement
/// character wherever they are not UTF-8. Bytes that are UTF-8 come out as the text
/// that they encode. How many bytes one replacement stands for is left unsaid.
#[verifier::external_body]
fn lossy(bytes: &[u8]) -> (r: String)
    ensures
        r@ == lossy_text(bytes@),
        vstd::utf8::valid_utf8(bytes@) ==> r@ == vstd::utf8::decode_utf8(bytes@),
{
    String::from_utf8_lossy(bytes).into_owned()
}

impl PathError {
    /// The message shown to the user.
    pub fn to_string(&self) -> (r: String)
        ensures
            r@ == match self {
                PathError::NonUtf8(bytes) => "path is not valid UTF-8: "@ + lossy_text(bytes@),
            },
    {
        match self {
            PathError::NonUtf8(bytes) => text::concat(
                "path is not valid UTF-8: ".to_string(),
                lossy(bytes).as_str(),
            ),
        }
    }
}

/// A path in normal form.
#[derive(PartialEq, Eq, PartialOrd, Ord, Hash, Debug)]
pub struct NormalizedPath {
    inner: String,
}

impl View for NormalizedPath {
    type V = Seq<char>;

    closed spec fn view(&self) -> Seq<char> {
        self.inner@
    }
}

impl Clone for NormalizedPath {
    fn clone(&self) -> (r: Self)
        ensures
            r@ == self@,
    {
        proof {
            use_type_invariant(self);
        }
        NormalizedPath { inner: self.inner.clone() }
    }
}

impl Ranked for NormalizedPath {
    fn compare(&self, other: &Self) -> (r: Order) {
        order::compare_text(self.inner.as_str(), other.inner.as_str())
    }
}

/// The non-empty pieces of a path behind its root.
pub open spec fn segments_of(s: Seq<char>) -> Seq<Seq<char>> {
    text::pieces(s.skip(root_len(s) as int), '/').filter(|p: Seq<char>| p.len() > 0)
}

/// What stands behind the last separator.
pub open spec fn last_piece(s: Seq<char>) -> Seq<char> {
    text::pieces(s.skip(root_len(s) as int), '/').last()
}

/// The final segment; none for roots, `.`, and `..`.
pub open spec fn file_name_of(s: Seq<char>) -> Option<Seq<char>> {
    let name = last_piece(s);
    if name.len() == 0 || name == here() || name == up() {
        None
    } else {
        Some(name)
    }
}

/// What follows the last dot of a file name, unless the dot comes first.
pub open spec fn extension_of(s: Seq<char>) -> Option<Seq<char>> {
    match file_name_of(s) {
        Some(name) => match text::last_index(name, '.') {
            Some(at) => if at > 0 {
                Some(name.skip(at + 1))
            } else {
                None
            },
            None => None,
        },
        None => None,
    }
}

/// `other` resolved against `base`; an absolute `other` replaces it.
pub open spec fn joined_path(base: Seq<char>, other: Seq<char>) -> Seq<char> {
    if root_len(other) > 0 {
        normal(other)
    } else {
        normal(base + seq!['/'] + other)
    }
}

/// The containing directory; none at a root.
pub open spec fn parent_of(s: Seq<char>) -> Option<Seq<char>> {
    let parent = joined_path(s, up());
    if parent != s {
        Some(parent)
    } else {
        None
    }
}

/// Whether `base` is a path prefix of `s`, segment by segment.
pub open spec fn within_path(s: Seq<char>, base: Seq<char>) -> bool {
    &&& root_of(s) == root_of(base)
    &&& segments_of(base).len() <= segments_of(s).len()
    &&& segments_of(s).take(segments_of(base).len() as int) == segments_of(base)
}

/// As many `..` as there are segments to climb, then the segments to go down.
pub open spec fn route(mine: Seq<Seq<char>>, theirs: Seq<Seq<char>>) -> Seq<Seq<char>> {
    let shared = text::shared_len(mine, theirs);
    Seq::new((theirs.len() - shared) as nat, |i: int| up()) + mine.skip(shared as int)
}

/// `s` relative to `base`. There is none where the two are anchored
/// differently, nor where `..` would have to be climbed out of.
pub open spec fn relative_path(s: Seq<char>, base: Seq<char>) -> Option<Seq<char>> {
    let mine = segments_of(s);
    let theirs = segments_of(base);
    if root_of(s) != root_of(base) || theirs.skip(
        text::shared_len(mine, theirs) as int,
    ).contains(up()) {
        None
    } else {
        Some(normal(text::joined(route(mine, theirs), seq!['/'])))
    }
}

/// The directory itself is in normal form.
pub proof fn lemma_here_is_normal()
    ensures
        normal(here()) == here(),
{
    let s = here();
    assert(s.skip(0) =~= s);
    assert(forward(s) =~= s);
    assert(!s.contains('/'));
    text::lemma_pieces_whole(s, '/');
    assert(settled(Seq::empty(), false) =~= Seq::empty());
    assert(seq![s].drop_last() =~= Seq::empty());
    assert(settled(seq![s], false) =~= Seq::empty());
}

/// The root is in normal form.
pub proof fn lemma_root_is_normal()
    ensures
        normal(seq!['/']) == seq!['/'],
{
    let s = seq!['/'];
    let rest = forward(s.skip(1));
    assert(rest =~= Seq::empty());
    text::lemma_pieces_whole(rest, '/');
    assert(settled(Seq::empty(), true) =~= Seq::empty());
    assert(seq![rest].drop_last() =~= Seq::empty());
    assert(settled(seq![rest], true) =~= Seq::empty());
}

/// How long segments are, each with a separator.
spec fn weight(segments: Seq<Seq<char>>) -> nat
    decreases segments.len(),
{
    if segments.len() == 0 {
        0
    } else {
        weight(segments.drop_last()) + segments.last().len() + 1
    }
}

proof fn lemma_weight_front(first: Seq<char>, rest: Seq<Seq<char>>)
    ensures
        weight(seq![first] + rest) == first.len() + 1 + weight(rest),
    decreases rest.len(),
{
    let all = seq![first] + rest;
    if rest.len() == 0 {
        assert(all.drop_last() =~= Seq::empty());
        assert(weight(all.drop_last()) == 0);
        assert(all.last() == first);
    } else {
        assert(all.drop_last() =~= seq![first] + rest.drop_last());
        assert(all.last() == rest.last());
        lemma_weight_front(first, rest.drop_last());
    }
}

proof fn lemma_weight_pieces(s: Seq<char>)
    ensures
        weight(text::pieces(s, '/')) == s.len() + 1,
    decreases s.len(),
{
    text::lemma_first_index(s, '/');
    let at = text::first_index(s, '/') as int;
    if at < s.len() {
        lemma_weight_pieces(s.skip(at + 1));
        lemma_weight_front(s.take(at), text::pieces(s.skip(at + 1), '/'));
    } else {
        assert(weight(seq![s].drop_last()) == 0);
    }
}

proof fn lemma_weight_settled(raw: Seq<Seq<char>>, absolute: bool)
    ensures
        weight(settled(raw, absolute)) <= weight(raw),
    decreases raw.len(),
{
    if raw.len() > 0 {
        lemma_weight_settled(raw.drop_last(), absolute);
        let done = settled(raw.drop_last(), absolute);
        assert(done.push(raw.last()).drop_last() =~= done);
    }
}

proof fn lemma_weight_joined(segments: Seq<Seq<char>>)
    requires
        segments.len() > 0,
    ensures
        text::joined(segments, seq!['/']).len() + 1 == weight(segments),
    decreases segments.len(),
{
    if segments.len() == 1 {
        assert(weight(segments.drop_last()) == 0);
    } else {
        lemma_weight_joined(segments.drop_last());
    }
}

/// A normal form is hardly longer than what it is the normal form of.
pub proof fn lemma_normal_len(s: Seq<char>)
    ensures
        normal(s).len() <= s.len() + 1,
{
    let rest = forward(s.skip(root_len(s) as int));
    lemma_weight_pieces(rest);
    lemma_weight_settled(text::pieces(rest, '/'), root_len(s) > 0);
    let segments = settled_segments(s);
    if segments.len() > 0 {
        lemma_weight_joined(segments);
    }
}

/// `str::to_lowercase`: Unicode lowercase, by the tables that `std` carries.
pub uninterp spec fn lowercase(s: Seq<char>) -> Seq<char>;

/// Whether a text holds nothing but ASCII.
pub open spec fn is_ascii_text(s: Seq<char>) -> bool {
    forall|i: int| 0 <= i < s.len() ==> (#[trigger] s[i]) as u32 <= 127
}

/// The lower case of an ASCII character.
pub open spec fn ascii_lower(c: char) -> char {
    if 'A' <= c <= 'Z' {
        (c as u32 + 32) as char
    } else {
        c
    }
}

/// ASCII text in lower case.
pub open spec fn ascii_folded(s: Seq<char>) -> Seq<char> {
    s.map_values(|c: char| ascii_lower(c))
}

/// `str::to_lowercase`. On ASCII it maps the letters `A` to `Z` one for one;
/// beyond that the mapping is Unicode's and stays unsaid.
#[verifier::external_body]
fn to_lowercase(s: &str) -> (r: String)
    ensures
        r@ == lowercase(s@),
        is_ascii_text(s@) ==> r@ == ascii_folded(s@),
{
    s.to_lowercase()
}

fn pieces_behind_root<'a>(chars: &'a [char]) -> (r: Vec<&'a [char]>)
    ensures
        text::views(r@) == text::pieces(chars@.skip(root_len(chars@) as int), '/'),
        r@.len() >= 1,
{
    let root: usize = root_prefix(chars);
    text::split(text::after(chars, root), '/')
}

fn nonempty_pieces<'a>(chars: &'a [char]) -> (out: Vec<&'a [char]>)
    ensures
        text::views(out@) == segments_of(chars@),
{
    let raw = pieces_behind_root(chars);
    let ghost all = text::views(raw@);
    let ghost keep = |p: Seq<char>| p.len() > 0;
    let mut out: Vec<&'a [char]> = Vec::new();
    let mut i: usize = 0;
    assert(text::views(out@) =~= Seq::empty());
    assert(all.take(0).filter(keep) =~= Seq::empty()) by {
        reveal(Seq::filter);
    }
    while i < raw.len()
        invariant
            i <= raw@.len(),
            all == text::views(raw@),
            keep == (|p: Seq<char>| p.len() > 0),
            text::views(out@) == all.take(i as int).filter(keep),
        decreases raw@.len() - i,
    {
        let ghost done = text::views(out@);
        proof {
            let next = all.take(i + 1);
            assert(next.drop_last() =~= all.take(i as int));
            assert(next.last() == raw@[i as int]@);
            reveal(Seq::filter);
        }
        if raw[i].len() > 0 {
            out.push(raw[i]);
            assert(text::views(out@) =~= done.push(raw@[i as int]@));
        }
        i += 1;
    }
    assert(all.take(i as int) =~= all);
    out
}

fn same_root(a: &[char], b: &[char]) -> (r: bool)
    ensures
        r == (root_of(a@) == root_of(b@)),
{
    let x: usize = root_prefix(a);
    let y: usize = root_prefix(b);
    text::same(text::before(a, x), text::before(b, y))
}

fn count_shared(a: &Vec<&[char]>, b: &Vec<&[char]>) -> (n: usize)
    ensures
        n == text::shared_len(text::views(a@), text::views(b@)),
        n <= a@.len(),
        n <= b@.len(),
{
    let ghost x = text::views(a@);
    let ghost y = text::views(b@);
    let mut n: usize = 0;
    while n < a.len() && n < b.len() && text::same(a[n], b[n])
        invariant
            n <= a@.len(),
            n <= b@.len(),
            x == text::views(a@),
            y == text::views(b@),
            forall|i: int| 0 <= i < n ==> x[i] == y[i],
        decreases a@.len() - n,
    {
        assert(x[n as int] == y[n as int]);
        n += 1;
    }
    proof {
        if n < a@.len() && n < b@.len() {
            assert(x[n as int] == a@[n as int]@);
            assert(y[n as int] == b@[n as int]@);
        }
        text::lemma_shared_len_is(x, y, n as int);
    }
    n
}

impl NormalizedPath {
    #[verifier::type_invariant]
    spec fn in_normal_form(self) -> bool {
        is_normal(self.inner@)
    }

    /// Normalizes any path-like string.
    ///
    /// Both `/` and `\` are treated as separators on every platform. The cost is
    /// that a Unix file with a literal backslash in its name is not addressable
    /// through this type; the benefit is that a Windows-shaped path resolves the
    /// same everywhere. The JS ecosystem makes the same trade.
    pub fn new(input: &str) -> (r: Self)
        ensures
            r@ == normal(input@),
            is_normal(r@),
    {
        let chars = text::chars_of(input);
        Self::from_chars(&chars)
    }

    fn from_chars(chars: &[char]) -> (r: Self)
        ensures
            r@ == normal(chars@),
            is_normal(r@),
    {
        let inner = text::string_of(&normalize(chars));
        proof {
            normalizing_yields_a_normal_form(chars@);
        }
        NormalizedPath { inner }
    }

    /// Converts the bytes of a native path, rejecting what is not UTF-8.
    pub fn from_native(path: &[u8]) -> (r: Result<Self, PathError>)
        ensures
            match r {
                Ok(found) => vstd::utf8::valid_utf8(path@) && found@ == normal(
                    vstd::utf8::decode_utf8(path@),
                ),
                Err(PathError::NonUtf8(bytes)) => !vstd::utf8::valid_utf8(path@) && bytes@
                    == path@,
            },
    {
        match text::decode(path) {
            Some(decoded) => Ok(Self::new(decoded.as_str())),
            None => {
                let mut bytes: Vec<u8> = Vec::new();
                bytes.extend_from_slice(path);
                assert(bytes@ =~= path@);
                Err(PathError::NonUtf8(bytes))
            },
        }
    }

    /// The path as text.
    pub fn as_str(&self) -> (r: &str)
        ensures
            r@ == self@,
            is_normal(self@),
    {
        proof {
            use_type_invariant(self);
        }
        self.inner.as_str()
    }

    /// The path as text.
    pub fn to_string(&self) -> (r: String)
        ensures
            r@ == self@,
    {
        self.inner.clone()
    }

    /// The path as owned text.
    pub fn into_string(self) -> (r: String)
        ensures
            r@ == self@,
    {
        self.inner
    }

    /// Whether two paths are the same.
    pub fn same(&self, other: &Self) -> (r: bool)
        ensures
            r == (self@ == other@),
    {
        text::same_text(self.inner.as_str(), other.inner.as_str())
    }

    /// Whether the path starts at a root.
    pub fn is_absolute(&self) -> (r: bool)
        ensures
            r == (root_len(self@) > 0),
    {
        let chars = text::chars_of(self.inner.as_str());
        root_prefix(&chars) > 0
    }

    /// Resolves `other` against this path, or replaces it if `other` is absolute.
    pub fn join(&self, other: &str) -> (r: Self)
        ensures
            r@ == joined_path(self@, other@),
    {
        let given = text::chars_of(other);
        if root_prefix(&given) > 0 {
            return Self::from_chars(&given);
        }
        let mut all = text::chars_of(self.inner.as_str());
        all.push('/');
        text::append(&mut all, &given);
        assert(all@ =~= self@ + seq!['/'] + other@);
        Self::from_chars(&all)
    }

    /// Appends to the final segment without inserting a separator: `x` + `.js`.
    pub fn with_suffix(&self, suffix: &str) -> (r: Self)
        ensures
            r@ == normal(self@ + suffix@),
    {
        let mut all = text::chars_of(self.inner.as_str());
        text::append_str(&mut all, suffix);
        Self::from_chars(&all)
    }

    /// The containing directory, or `None` at a filesystem root.
    pub fn parent(&self) -> (r: Option<Self>)
        ensures
            text::view_of(r) == parent_of(self@),
    {
        proof {
            reveal_strlit("..");
            assert(".."@ =~= up());
        }
        let parent = self.join("..");
        if parent.same(self) {
            None
        } else {
            Some(parent)
        }
    }

    /// The final segment, or `None` for roots, `.`, and `..`.
    pub fn file_name(&self) -> (r: Option<&str>)
        ensures
            match r {
                Some(name) => file_name_of(self@) == Some(name@),
                None => file_name_of(self@) is None,
            },
    {
        let chars = text::chars_of(self.inner.as_str());
        let pieces = pieces_behind_root(&chars);
        let name = pieces[pieces.len() - 1];
        proof {
            let all = text::pieces(chars@.skip(root_len(chars@) as int), '/');
            assert(all.last() == name@);
            lemma_last_piece(chars@.skip(root_len(chars@) as int));
        }
        if name.len() == 0 || names_here(name) || climbs(name) {
            None
        } else {
            let total: usize = chars.len();
            Some(self.inner.as_str().substring_char(total - name.len(), total))
        }
    }

    /// The extension without its dot: `a/b.min.js` is `js`, `.bashrc` is `None`.
    pub fn extension(&self) -> (r: Option<&str>)
        ensures
            match r {
                Some(extension) => extension_of(self@) == Some(extension@),
                None => extension_of(self@) is None,
            },
    {
        let name = match self.file_name() {
            Some(name) => name,
            None => {
                return None;
            },
        };
        let chars = text::chars_of(name);
        match text::last_index_of(&chars, '.') {
            Some(at) => {
                if at == 0 {
                    None
                } else {
                    assert(at < chars.len());
                    let r = name.substring_char(at + 1, chars.len());
                    assert(r@ =~= name@.skip(at + 1));
                    Some(r)
                }
            },
            None => None,
        }
    }

    /// Path segments, excluding any root prefix.
    pub fn segments(&self) -> (r: Vec<String>)
        ensures
            text::strings(r@) == segments_of(self@),
    {
        let chars = text::chars_of(self.inner.as_str());
        let pieces = nonempty_pieces(&chars);
        let ghost all = text::views(pieces@);
        let mut out: Vec<String> = Vec::new();
        let mut i: usize = 0;
        while i < pieces.len()
            invariant
                i <= pieces@.len(),
                all == text::views(pieces@),
                text::strings(out@) == all.take(i as int),
            decreases pieces@.len() - i,
        {
            let ghost done = out@;
            let one = text::string_of(pieces[i]);
            out.push(one);
            assert(text::strings(out@) =~= text::strings(done).push(one@));
            assert(all.take(i + 1) =~= all.take(i as int).push(one@));
            i += 1;
        }
        assert(all.take(i as int) =~= all);
        out
    }

    /// Whether `base` is a path prefix of `self`, compared segment-wise so that
    /// `/a/bc` does not start with `/a/b`.
    pub fn starts_with(&self, base: &Self) -> (r: bool)
        ensures
            r == within_path(self@, base@),
    {
        let mine = text::chars_of(self.inner.as_str());
        let theirs = text::chars_of(base.inner.as_str());
        if !same_root(&mine, &theirs) {
            return false;
        }
        let a = nonempty_pieces(&mine);
        let b = nonempty_pieces(&theirs);
        let n: usize = count_shared(&a, &b);
        proof {
            let x = text::views(a@);
            let y = text::views(b@);
            text::lemma_shared_len(x, y);
            assert(x.len() == a@.len() && y.len() == b@.len());
            if n == y.len() {
                assert(y.take(n as int) =~= y);
            } else if y.len() <= x.len() {
                assert(x.take(y.len() as int)[n as int] != y[n as int]);
            }
        }
        n == b.len()
    }

    /// Expresses this path relative to `base`, climbing with `..` when needed.
    ///
    /// Returns `None` when the two are anchored differently (one absolute, one
    /// relative, or different Windows drives), since no relative path connects
    /// them, and when a leading `..` of `base` would have to be climbed out of.
    pub fn relative_to(&self, base: &Self) -> (r: Option<Self>)
        ensures
            text::view_of(r) == relative_path(self@, base@),
    {
        let mine = text::chars_of(self.inner.as_str());
        let theirs = text::chars_of(base.inner.as_str());
        if !same_root(&mine, &theirs) {
            return None;
        }
        let a = nonempty_pieces(&mine);
        let b = nonempty_pieces(&theirs);
        let shared: usize = count_shared(&a, &b);
        let ghost x = text::views(a@);
        let ghost y = text::views(b@);
        let mut dots: Vec<char> = Vec::new();
        dots.push('.');
        dots.push('.');
        assert(dots@ =~= up());
        let mut parts: Vec<&[char]> = Vec::new();
        let mut i: usize = shared;
        while i < b.len()
            invariant
                shared <= i <= b@.len(),
                y == text::views(b@),
                dots@ == up(),
                text::views(parts@) == Seq::new((i - shared) as nat, |k: int| up()),
                forall|k: int| shared <= k < i ==> #[trigger] y[k] != up(),
                x == segments_of(self@),
                y == segments_of(base@),
                shared == text::shared_len(x, y),
                root_of(self@) == root_of(base@),
            decreases b@.len() - i,
        {
            if climbs(b[i]) {
                proof {
                    let tail = y.skip(shared as int);
                    assert(tail[i - shared] == b@[i as int]@);
                    assert(tail.contains(up()));
                }
                return None;
            }
            let ghost done = text::views(parts@);
            assert(y[i as int] == b@[i as int]@);
            parts.push(&dots);
            assert(text::views(parts@) =~= done.push(up()));
            assert(text::views(parts@) =~= Seq::new((i + 1 - shared) as nat, |k: int| up()));
            i += 1;
        }
        let ghost ups = text::views(parts@);
        let mut j: usize = shared;
        assert(x.skip(shared as int).take(0) =~= Seq::empty());
        assert(ups + Seq::empty() =~= ups);
        while j < a.len()
            invariant
                shared <= j <= a@.len(),
                x == text::views(a@),
                text::views(parts@) == ups + x.skip(shared as int).take(j - shared),
            decreases a@.len() - j,
        {
            let ghost done = text::views(parts@);
            parts.push(a[j]);
            proof {
                assert(text::views(parts@) =~= done.push(a@[j as int]@));
                let tail = x.skip(shared as int);
                assert(tail.take(j + 1 - shared) =~= tail.take(j - shared).push(x[j as int]));
                assert(ups + tail.take(j + 1 - shared) =~= (ups + tail.take(j - shared)).push(
                    x[j as int],
                ));
            }
            j += 1;
        }
        let whole = text::join(&parts, "/");
        proof {
            let tail = x.skip(shared as int);
            assert(tail.take(tail.len() as int) =~= tail);
            reveal_strlit("/");
            assert("/"@ =~= seq!['/']);
            assert(ups == Seq::new((y.len() - shared) as nat, |k: int| up()));
            assert(text::views(parts@) =~= route(x, y));
            let rest = y.skip(shared as int);
            if rest.contains(up()) {
                let k = choose|k: int| 0 <= k < rest.len() && rest[k] == up();
                assert(y[k + shared] == up());
            }
        }
        Some(Self::from_chars(&whole))
    }

    /// Key for detecting collisions on case-insensitive filesystems.
    ///
    /// This is an approximation: filesystems fold case with Unicode tables that
    /// drift between versions. It is good enough to *flag* a collision, and it is
    /// never used as an identity.
    pub fn case_fold_key(&self) -> (r: String)
        ensures
            r@ == lowercase(self@),
            is_ascii_text(self@) ==> r@ == ascii_folded(self@),
    {
        to_lowercase(self.inner.as_str())
    }

    /// Whether two paths would collide on a case-insensitive filesystem.
    pub fn eq_case_insensitive(&self, other: &Self) -> (r: bool)
        ensures
            r == (lowercase(self@) == lowercase(other@)),
            is_ascii_text(self@) && is_ascii_text(other@) ==> r == (ascii_folded(self@)
                == ascii_folded(other@)),
    {
        let mine = self.case_fold_key();
        let theirs = other.case_fold_key();
        text::same_text(mine.as_str(), theirs.as_str())
    }
}

/// The last piece is the end of the text.
proof fn lemma_last_piece(s: Seq<char>)
    ensures
        text::pieces(s, '/').last().len() <= s.len(),
        s.skip(s.len() - text::pieces(s, '/').last().len()) == text::pieces(s, '/').last(),
    decreases s.len(),
{
    text::lemma_first_index(s, '/');
    let at = text::first_index(s, '/') as int;
    if at < s.len() {
        let rest = s.skip(at + 1);
        lemma_last_piece(rest);
        text::lemma_pieces_clean(rest, '/');
        let last = text::pieces(rest, '/').last();
        assert(text::pieces(s, '/').last() == last);
        assert(s.skip(s.len() - last.len()) =~= rest.skip(rest.len() - last.len()));
    } else {
        assert(s.skip(0) =~= s);
    }
}

// ---------------------------------------------------------------------------
// Laws.

/// Pieces of two texts with a separator between them.
proof fn lemma_pieces_concat(a: Seq<char>, b: Seq<char>)
    ensures
        text::pieces(a + seq!['/'] + b, '/') == text::pieces(a, '/') + text::pieces(b, '/'),
    decreases a.len(),
{
    text::lemma_first_index(a, '/');
    let at = text::first_index(a, '/') as int;
    if at < a.len() {
        let head = a.take(at);
        let rest = a.skip(at + 1);
        assert(!head.contains('/'));
        lemma_pieces_concat(rest, b);
        text::lemma_pieces_step(head, rest + seq!['/'] + b, '/');
        assert(a + seq!['/'] + b =~= head + seq!['/'] + (rest + seq!['/'] + b));
        assert(seq![head] + (text::pieces(rest, '/') + text::pieces(b, '/')) =~= (seq![head]
            + text::pieces(rest, '/')) + text::pieces(b, '/'));
    } else {
        assert(!a.contains('/'));
        text::lemma_pieces_step(a, b, '/');
        text::lemma_pieces_whole(a, '/');
    }
}

/// Settling is done from the left.
proof fn lemma_settled_concat(a: Seq<Seq<char>>, b: Seq<Seq<char>>, absolute: bool)
    ensures
        settled(a + b, absolute) == settled(settled(a, absolute) + b, absolute),
    decreases b.len(),
{
    if b.len() == 0 {
        assert(a + b =~= a);
        assert(settled(a, absolute) + b =~= settled(a, absolute));
        lemma_settled_twice(a, absolute);
    } else {
        assert((a + b).drop_last() =~= a + b.drop_last());
        assert((settled(a, absolute) + b).drop_last() =~= settled(a, absolute) + b.drop_last());
        assert((a + b).last() == b.last());
        assert((settled(a, absolute) + b).last() == b.last());
        lemma_settled_concat(a, b.drop_last(), absolute);
    }
}

/// Settling what is settled changes nothing, whatever the segments are.
proof fn lemma_settled_twice(raw: Seq<Seq<char>>, absolute: bool)
    ensures
        settled(settled(raw, absolute), absolute) == settled(raw, absolute),
{
    lemma_settled_shape(raw, absolute);
    lemma_shape_settles(settled(raw, absolute), absolute);
}

/// The shape of settled segments: no empty ones, no `.`, `..` only in front.
spec fn has_shape(segments: Seq<Seq<char>>, absolute: bool) -> bool {
    &&& forall|i: int|
        0 <= i < segments.len() ==> (#[trigger] segments[i]).len() > 0 && segments[i] != here()
    &&& forall|i: int|
        0 <= i < segments.len() && #[trigger] segments[i] == up() ==> !absolute && (forall|j: int|
            0 <= j < i ==> #[trigger] segments[j] == up())
}

proof fn lemma_settled_shape(raw: Seq<Seq<char>>, absolute: bool)
    ensures
        has_shape(settled(raw, absolute), absolute),
    decreases raw.len(),
{
    if raw.len() > 0 {
        lemma_settled_shape(raw.drop_last(), absolute);
        let done = settled(raw.drop_last(), absolute);
        let next = settled(raw, absolute);
        assert forall|i: int| 0 <= i < next.len() implies (#[trigger] next[i]).len() > 0 && next[i]
            != here() by {
            if i < done.len() {
                assert(next[i] == done[i]);
            }
        }
        assert forall|i: int| 0 <= i < next.len() && #[trigger] next[i] == up() implies !absolute
            && (forall|j: int| 0 <= j < i ==> #[trigger] next[j] == up()) by {
            if i < done.len() {
                assert(next[i] == done[i]);
            } else if done.len() > 0 {
                assert(done[done.len() - 1] == up());
            }
            assert forall|j: int| 0 <= j < i implies #[trigger] next[j] == up() by {
                assert(next[j] == done[j]);
                if i == done.len() {
                    assert(done[done.len() - 1] == up());
                } else {
                    assert(done[i] == up());
                }
            }
        }
    }
}

proof fn lemma_shape_settles(segments: Seq<Seq<char>>, absolute: bool)
    requires
        has_shape(segments, absolute),
    ensures
        settled(segments, absolute) == segments,
    decreases segments.len(),
{
    if segments.len() > 0 {
        let front = segments.drop_last();
        assert forall|i: int| 0 <= i < front.len() implies (#[trigger] front[i]).len() > 0
            && front[i] != here() by {
            assert(front[i] == segments[i]);
        }
        assert forall|i: int| 0 <= i < front.len() && #[trigger] front[i] == up() implies !absolute
            && (forall|j: int| 0 <= j < i ==> #[trigger] front[j] == up()) by {
            assert(front[i] == segments[i]);
            assert forall|j: int| 0 <= j < i implies #[trigger] front[j] == up() by {
                assert(front[j] == segments[j]);
            }
        }
        lemma_shape_settles(front, absolute);
        let last = segments.len() - 1;
        assert(segments[last].len() > 0);
        if segments[last] == up() && front.len() > 0 {
            assert(segments[front.len() - 1] == up());
        }
        assert(front.push(segments.last()) =~= segments);
    } else {
        assert(segments =~= Seq::empty());
    }
}

/// Climbing as often as there are segments behind the first `keep` leaves those.
proof fn lemma_climb(segments: Seq<Seq<char>>, keep: int, absolute: bool)
    requires
        has_shape(segments, absolute),
        0 <= keep <= segments.len(),
        forall|i: int| keep <= i < segments.len() ==> #[trigger] segments[i] != up(),
    ensures
        settled(
            segments + Seq::new((segments.len() - keep) as nat, |i: int| up()),
            absolute,
        ) == segments.take(keep),
    decreases segments.len() - keep,
{
    let ups = Seq::new((segments.len() - keep) as nat, |i: int| up());
    let all = segments + ups;
    if keep == segments.len() {
        assert(all =~= segments);
        assert(segments.take(keep) =~= segments);
        lemma_shape_settles(segments, absolute);
    } else {
        lemma_climb(segments, keep + 1, absolute);
        let fewer = Seq::new((segments.len() - keep - 1) as nat, |i: int| up());
        assert(all.drop_last() =~= segments + fewer);
        let before = segments.take(keep + 1);
        assert(before.last() == segments[keep]);
        assert(all.last() == up());
        assert(before.drop_last() =~= segments.take(keep));
    }
}

/// What follows a prefix of settled segments can be appended to it again.
proof fn lemma_descend(segments: Seq<Seq<char>>, keep: int, absolute: bool)
    requires
        has_shape(segments, absolute),
        0 <= keep <= segments.len(),
    ensures
        settled(segments.take(keep) + segments.skip(keep), absolute) == segments,
{
    assert(segments.take(keep) + segments.skip(keep) =~= segments);
    lemma_shape_settles(segments, absolute);
}

/// In a path in normal form the segments are the settled segments; only the
/// path `.` has one more, namely itself.
proof fn lemma_segments_of_normal(s: Seq<char>)
    requires
        is_normal(s),
        s == normal(s),
    ensures
        has_shape(settled_segments(s), root_len(s) > 0),
        s == here() ==> segments_of(s) == seq![here()] && settled_segments(s).len() == 0,
        s != here() ==> segments_of(s) == settled_segments(s),
        s.len() > 0,
        s != here() ==> s == normal_root(s) + text::joined(settled_segments(s), seq!['/']),
        normal_root(s) == root_of(s),
        !s.contains('\\'),
{
    normalizing_yields_a_normal_form(s);
    normalizing_is_idempotent(s);
    let segments = settled_segments(s);
    let root = normal_root(s);
    let keep = |p: Seq<char>| p.len() > 0;
    let body = text::joined(segments, seq!['/']);
    assert forall|i: int| 0 <= i < segments.len() implies (#[trigger] segments[i]).len() > 0
        && segments[i] != here() by {
        assert(is_segment(segments[i]));
    }
    assert(!s.contains('\\')) by {
        if s.contains('\\') {
            let k = choose|k: int| 0 <= k < s.len() && s[k] == '\\';
            if segments.len() > 0 && k >= root.len() {
                assert(body[k - root.len()] == '\\');
                assert(body.contains('\\'));
                text::lemma_joined_contains(segments, seq!['/'], '\\');
                let i = choose|i: int|
                    0 <= i < segments.len() && (#[trigger] segments[i]).contains('\\');
                assert(is_segment(segments[i]));
            } else if root.len() > 0 {
                assert(root[k] == '\\');
            }
        }
    }
    if segments.len() > 0 {
        assert(segments[0].len() > 0);
        assert(s.skip(root.len() as int) =~= body);
        assert(root_len(s) == root.len()) by {
            if root_len(s) == 2 {
                assert(s[1] == ':');
                assert(s[2] == root[2]);
            }
        }
        assert(root =~= s.take(root.len() as int));
        assert forall|i: int| 0 <= i < segments.len() implies !(#[trigger] segments[i]).contains(
            '/',
        ) by {
            assert(is_segment(segments[i]));
        }
        text::lemma_pieces_joined(segments, '/');
        lemma_filter_keeps_all(segments);
        if s == here() {
            assert(root.len() == 0);
            assert(body =~= here());
            text::lemma_pieces_whole(here(), '/');
            assert(segments[0] == here());
        }
    } else if root_len(s) > 0 {
        assert(s == root);
        assert(root_len(s) == root.len()) by {
            if root_len(s) == 2 {
                assert(s[2] == root[2]);
            }
        }
        assert(s.skip(root.len() as int) =~= Seq::empty());
        assert(root =~= s.take(root.len() as int));
        text::lemma_pieces_whole(Seq::empty(), '/');
        let raw = seq![Seq::<char>::empty()];
        assert(raw.drop_last() =~= Seq::empty());
        reveal(Seq::filter);
        reveal_with_fuel(Seq::filter, 2);
        assert(raw.filter(keep) =~= Seq::empty());
        assert(segments =~= Seq::empty());
        assert(root + Seq::empty() =~= root);
    } else {
        assert(s == here());
        assert(s.skip(0) =~= here());
        text::lemma_pieces_whole(here(), '/');
        let raw = seq![here()];
        assert(raw.drop_last() =~= Seq::empty());
        reveal_with_fuel(Seq::filter, 2);
        assert(raw.filter(keep) =~= seq![here()]);
        assert(root =~= root_of(s));
    }
}

/// A path comes after every other path that it lies within, so a directory is
/// listed before what is in it.
pub proof fn directories_come_first(s: Seq<char>, base: Seq<char>)
    requires
        s == normal(s),
        base == normal(base),
        within_path(s, base),
        s != base,
    ensures
        order::precedes(order::text_rank(base), order::text_rank(s)),
{
    normalizing_yields_a_normal_form(s);
    normalizing_yields_a_normal_form(base);
    lemma_segments_of_normal(s);
    lemma_segments_of_normal(base);
    let segments = segments_of(s);
    let n = segments_of(base).len() as int;
    if s == here() {
        assert(n == 0);
        assert(base =~= root_of(base));
    } else if base == here() {
        assert(segments[0] == segments.take(n)[0]);
    } else {
        text::lemma_joined_begins(segments, seq!['/'], n);
        let root = root_of(s);
        let begin = text::joined(segments.take(n), seq!['/']);
        assert(s.take(base.len() as int) =~= root + text::joined(segments, seq!['/']).take(
            begin.len() as int,
        ));
        let rest = s.skip(base.len() as int);
        assert(s =~= base + rest);
        let a = order::text_rank(base);
        let b = order::text_rank(rest);
        assert(order::text_rank(s) =~= a + b);
        assert(a + Seq::empty() =~= a);
        order::lemma_common_prefix(a, Seq::empty(), b);
    }
}

/// A relative path in normal form that leads down: it is not `.`, and it does not
/// climb.
pub open spec fn is_tidy(s: Seq<char>) -> bool {
    s == normal(s) && s != here() && root_len(s) == 0 && !settled_segments(s).contains(up())
}

/// The segments of a path that leads down.
proof fn lemma_tidy(s: Seq<char>)
    requires
        is_tidy(s),
    ensures
        settled_segments(s).len() > 0,
        s == text::joined(settled_segments(s), seq!['/']),
        text::pieces(s, '/') == settled_segments(s),
        has_shape(settled_segments(s), false),
        !s.contains('\\'),
        s.len() > 0,
{
    normalizing_yields_a_normal_form(s);
    lemma_segments_of_normal(s);
    let segments = settled_segments(s);
    assert(normal_root(s) =~= Seq::empty());
    assert(s =~= text::joined(segments, seq!['/']));
    assert forall|i: int| 0 <= i < segments.len() implies !(#[trigger] segments[i]).contains(
        '/',
    ) by {
        assert(is_segment(segments[i]));
    }
    text::lemma_pieces_joined(segments, '/');
}

/// A path that leads down, behind another such path or behind `.`, is written
/// behind it.
pub proof fn lemma_joined_tidy(base: Seq<char>, other: Seq<char>)
    requires
        base == here() || is_tidy(base),
        is_tidy(other),
    ensures
        joined_path(base, other) == if base == here() {
            other
        } else {
            base + seq!['/'] + other
        },
        is_tidy(joined_path(base, other)),
{
    lemma_tidy(other);
    let t = base + seq!['/'] + other;
    let below = settled_segments(other);
    let above = if base == here() {
        Seq::empty()
    } else {
        settled_segments(base)
    };
    let first = text::pieces(base, '/');
    if base == here() {
        text::lemma_pieces_whole(here(), '/');
        let one = seq![here()];
        assert(one.drop_last() =~= Seq::empty());
        reveal_with_fuel(settled, 2);
        assert(settled(first, false) =~= above);
    } else {
        lemma_tidy(base);
        lemma_shape_settles(above, false);
    }
    assert(!t.contains('\\')) by {
        if t.contains('\\') {
            let k = choose|k: int| 0 <= k < t.len() && t[k] == '\\';
            if k < base.len() {
                assert(base[k] == '\\');
            } else if k > base.len() {
                assert(other[k - base.len() - 1] == '\\');
            }
        }
    }
    assert(root_len(t) == 0) by {
        assert(t[0] == base[0]);
        assert(base.len() >= 2 ==> t[1] == base[1]);
        if base.len() == 1 {
            assert(t[1] == '/');
        }
    }
    assert(t.skip(0) =~= t);
    lemma_forward_same(t);
    lemma_pieces_concat(base, other);
    lemma_settled_concat(first, below, false);
    let whole = above + below;
    assert(has_shape(whole, false)) by {
        assert forall|i: int| 0 <= i < whole.len() implies (#[trigger] whole[i]).len() > 0
            && whole[i] != here() && whole[i] != up() by {
            if i < above.len() {
                assert(whole[i] == above[i]);
                assert(settled_segments(base).contains(above[i]));
            } else {
                assert(whole[i] == below[i - above.len()]);
                assert(below.contains(below[i - above.len()]));
            }
        }
    }
    lemma_shape_settles(whole, false);
    assert(settled_segments(t) == whole);
    assert(normal_root(t) =~= Seq::empty());
    if base == here() {
        assert(whole =~= below);
        assert(normal(t) =~= other);
    } else {
        text::lemma_joined_concat(above, below, seq!['/']);
        assert(normal(t) =~= t);
        assert(!whole.contains(up())) by {
            if whole.contains(up()) {
                let i = choose|i: int| 0 <= i < whole.len() && whole[i] == up();
                if i < above.len() {
                    assert(above.contains(above[i]));
                } else {
                    assert(below.contains(below[i - above.len()]));
                }
            }
        }
        assert(t != here()) by {
            assert(t.len() > 1);
        }
    }
}

/// A separator at the end of a path that leads down does not matter.
pub proof fn lemma_tidy_directory(s: Seq<char>)
    requires
        is_tidy(s),
    ensures
        normal(s + seq!['/']) == s,
{
    lemma_tidy(s);
    let t = s + seq!['/'];
    let segments = settled_segments(s);
    assert(t =~= s + seq!['/'] + Seq::empty());
    assert(!t.contains('\\')) by {
        if t.contains('\\') {
            let k = choose|k: int| 0 <= k < t.len() && t[k] == '\\';
            assert(s[k] == '\\');
        }
    }
    assert(root_len(t) == 0) by {
        assert(t[0] == s[0]);
        assert(s.len() >= 2 ==> t[1] == s[1]);
    }
    assert(t.skip(0) =~= t);
    lemma_forward_same(t);
    lemma_pieces_concat(s, Seq::empty());
    text::lemma_pieces_whole(Seq::empty(), '/');
    let raw = segments + seq![Seq::<char>::empty()];
    assert(raw.drop_last() =~= segments);
    lemma_shape_settles(segments, false);
    assert(settled_segments(t) == segments);
    assert(normal_root(t) =~= Seq::empty());
    assert(normal(t) =~= s);
}

/// A single name leads down.
pub proof fn lemma_name_is_tidy(s: Seq<char>)
    requires
        is_segment(s),
        s != up(),
        root_len(s) == 0,
    ensures
        is_tidy(s),
{
    assert(s.skip(0) =~= s);
    lemma_forward_same(s);
    text::lemma_pieces_whole(s, '/');
    let one = seq![s];
    assert(one.drop_last() =~= Seq::empty());
    reveal_with_fuel(settled, 2);
    assert(settled(one, false) =~= one);
    assert(normal_root(s) =~= Seq::empty());
    assert(normal(s) =~= s);
    assert(!one.contains(up()));
}

/// No text at all is the directory itself.
pub proof fn lemma_nothing_is_here()
    ensures
        normal(Seq::empty()) == here(),
{
    let s = Seq::<char>::empty();
    assert(s.skip(0) =~= s);
    lemma_forward_same(s);
    text::lemma_pieces_whole(s, '/');
    let one = seq![s];
    assert(one.drop_last() =~= Seq::empty());
    reveal_with_fuel(settled, 2);
    assert(settled(one, false) =~= Seq::empty());
}

proof fn lemma_filter_keeps_all(parts: Seq<Seq<char>>)
    requires
        forall|i: int| 0 <= i < parts.len() ==> (#[trigger] parts[i]).len() > 0,
    ensures
        parts.filter(|p: Seq<char>| p.len() > 0) == parts,
    decreases parts.len(),
{
    let keep = |p: Seq<char>| p.len() > 0;
    reveal(Seq::filter);
    if parts.len() > 0 {
        let front = parts.drop_last();
        assert forall|i: int| 0 <= i < front.len() implies (#[trigger] front[i]).len() > 0 by {
            assert(front[i] == parts[i]);
        }
        lemma_filter_keeps_all(front);
        assert(parts[parts.len() - 1].len() > 0);
        assert(front.push(parts.last()) =~= parts);
    } else {
        assert(parts.filter(keep) =~= parts);
    }
}

/// The segments that a route is read as: an empty text has one empty piece.
spec fn route_pieces(s: Seq<char>, base: Seq<char>) -> Seq<Seq<char>> {
    let parts = route(segments_of(s), segments_of(base));
    if parts.len() > 0 {
        parts
    } else {
        seq![Seq::<char>::empty()]
    }
}

/// The relative path is in normal form and settles like the route.
proof fn lemma_relative_path(s: Seq<char>, base: Seq<char>)
    requires
        is_normal(s) && s == normal(s),
        is_normal(base) && base == normal(base),
        base != here(),
        relative_path(s, base) is Some,
        root_len(text::joined(route(segments_of(s), segments_of(base)), seq!['/'])) == 0,
    ensures
        is_normal(relative_path(s, base)->0),
        relative_path(s, base)->0 == normal(relative_path(s, base)->0),
        root_len(relative_path(s, base)->0) == 0,
        settled_segments(relative_path(s, base)->0) == settled(route_pieces(s, base), false),
        (root_len(s) > 0) == (root_len(base) > 0),
{
    lemma_segments_of_normal(s);
    lemma_segments_of_normal(base);
    let absolute = root_len(base) > 0;
    let mine = segments_of(s);
    let theirs = segments_of(base);
    let shared = text::shared_len(mine, theirs) as int;
    text::lemma_shared_len(mine, theirs);
    let parts = route(mine, theirs);
    let whole = text::joined(parts, seq!['/']);
    let rel = relative_path(s, base)->0;
    assert(root_of(s).len() == root_len(s));
    assert(root_of(base).len() == root_len(base));
    // The route holds no separators inside its segments.
    assert forall|i: int| 0 <= i < parts.len() implies !(#[trigger] parts[i]).contains('/')
        && !parts[i].contains('\\') by {
        let climbs = theirs.len() - shared;
        if i >= climbs {
            assert(parts[i] == mine[i - climbs + shared]);
            normalizing_yields_a_normal_form(s);
            if s != here() {
                assert(is_segment(settled_segments(s)[i - climbs + shared]));
            } else {
                assert(!here().contains('/') && !here().contains('\\'));
            }
        } else {
            assert(parts[i] == up());
            assert(!up().contains('/') && !up().contains('\\'));
        }
    }
    let raw = route_pieces(s, base);
    assert(whole.skip(0) =~= whole);
    assert(!whole.contains('\\')) by {
        if whole.contains('\\') {
            text::lemma_joined_contains(parts, seq!['/'], '\\');
            let i = choose|i: int| 0 <= i < parts.len() && (#[trigger] parts[i]).contains('\\');
            assert(!parts[i].contains('\\'));
        }
    }
    lemma_forward_same(whole);
    if parts.len() > 0 {
        text::lemma_pieces_joined(parts, '/');
    } else {
        assert(whole =~= Seq::empty());
        text::lemma_pieces_whole(Seq::empty(), '/');
    }
    assert(settled_segments(whole) == settled(raw, false));
    normalizing_yields_a_normal_form(whole);
    lemma_way(s, theirs, raw, shared, absolute);
    assert(root_len(rel) == 0) by {
        assert(normal_root(whole) =~= Seq::empty());
        let found = settled(raw, false);
        if found.len() > 0 {
            assert(rel =~= text::joined(found, seq!['/']));
            if s == here() {
                assert(found[0] == up());
                if found.len() > 1 {
                    text::lemma_joined_front(found, seq!['/']);
                }
                assert(rel[0] == '.');
            }
        }
    }
    normalizing_is_idempotent(whole);
}

/// Going from `base` along the path of `s` relative to `base` leads to `s`.
///
/// Left out are the base `.`, which counts as a segment of its own, and routes
/// whose first segment reads as a drive.
pub proof fn relative_path_leads_back(s: Seq<char>, base: Seq<char>)
    requires
        is_normal(s) && s == normal(s),
        is_normal(base) && base == normal(base),
        base != here(),
        relative_path(s, base) is Some,
        root_len(text::joined(route(segments_of(s), segments_of(base)), seq!['/'])) == 0,
    ensures
        joined_path(base, relative_path(s, base)->0) == s,
{
    lemma_segments_of_normal(s);
    lemma_segments_of_normal(base);
    lemma_relative_path(s, base);
    let absolute = root_len(base) > 0;
    let theirs = segments_of(base);
    let shared = text::shared_len(segments_of(s), theirs) as int;
    let rel = relative_path(s, base)->0;
    let raw = route_pieces(s, base);
    lemma_segments_of_normal(rel);
    let way = settled_segments(rel);
    // The whole text that is normalized.
    let t = base + seq!['/'] + rel;
    let root = root_of(base);
    let body = text::joined(theirs, seq!['/']);
    assert(base == root + body);
    assert(!t.contains('\\')) by {
        if t.contains('\\') {
            let k = choose|k: int| 0 <= k < t.len() && t[k] == '\\';
            if k < base.len() {
                assert(base[k] == '\\');
            } else if k > base.len() {
                assert(rel[k - base.len() - 1] == '\\');
            }
        }
    }
    assert(root_len(t) == root_len(base)) by {
        assert(t[0] == base[0]);
        assert(base.len() >= 2 ==> t[1] == base[1]);
        assert(base.len() >= 3 ==> t[2] == base[2]);
        if base.len() == 1 {
            assert(t[1] == '/');
        }
        normalizing_yields_a_normal_form(base);
        if root_len(base) == 2 {
            assert(normal_root(base).len() == 3);
            assert(root_of(base).len() == 2);
        }
        if base.len() == 2 && root_len(base) == 0 {
            assert(t[2] == '/');
        }
    }
    assert(normal_root(t) == normal_root(base)) by {
        assert(t[0] == base[0]);
    }
    let rest = t.skip(root_len(t) as int);
    assert(rest =~= body + seq!['/'] + rel);
    assert(!rest.contains('\\')) by {
        if rest.contains('\\') {
            let k = choose|k: int| 0 <= k < rest.len() && rest[k] == '\\';
            assert(t[k + root_len(t)] == '\\');
        }
    }
    lemma_forward_same(rest);
    lemma_pieces_concat(body, rel);
    let first = text::pieces(body, '/');
    let second = text::pieces(rel, '/');
    assert(settled_segments(t) == settled(first + second, absolute));
    normalizing_yields_a_normal_form(base);
    if theirs.len() > 0 {
        assert forall|i: int| 0 <= i < theirs.len() implies !(#[trigger] theirs[i]).contains(
            '/',
        ) by {
            assert(is_segment(settled_segments(base)[i]));
        }
        text::lemma_pieces_joined(theirs, '/');
        lemma_shape_settles(theirs, absolute);
        assert(settled(first, absolute) == theirs);
    } else {
        assert(body =~= Seq::empty());
        text::lemma_pieces_whole(Seq::empty(), '/');
        let one = seq![Seq::<char>::empty()];
        assert(one.drop_last() =~= Seq::empty());
        reveal_with_fuel(settled, 2);
        assert(settled(first, absolute) =~= theirs);
    }
    lemma_settled_concat(first, second, absolute);
    lemma_second_settles(theirs, rel, way, second, absolute);
    assert(settled_segments(t) == settled(theirs + way, absolute));
    lemma_way_leads_back(s, theirs, raw, way, shared, absolute);
}

/// The pieces of a relative path in normal form settle like its segments.
proof fn lemma_second_settles(
    theirs: Seq<Seq<char>>,
    rel: Seq<char>,
    way: Seq<Seq<char>>,
    second: Seq<Seq<char>>,
    absolute: bool,
)
    requires
        is_normal(rel) && rel == normal(rel),
        root_len(rel) == 0,
        way == settled_segments(rel),
        second == text::pieces(rel, '/'),
    ensures
        settled(theirs + second, absolute) == settled(theirs + way, absolute),
{
    lemma_segments_of_normal(rel);
    normalizing_yields_a_normal_form(rel);
    assert(rel.skip(0) =~= rel);
    if rel == here() {
        assert(!here().contains('/'));
        text::lemma_pieces_whole(here(), '/');
        assert((theirs + second).drop_last() =~= theirs + way);
        assert((theirs + second).last() == here());
    } else {
        assert(normal_root(rel) =~= Seq::empty());
        let body = text::joined(way, seq!['/']);
        assert(rel =~= body);
        if way.len() == 0 {
            assert(body.len() == 0);
        }
        assert forall|i: int| 0 <= i < way.len() implies !(#[trigger] way[i]).contains('/') by {
            assert(is_segment(way[i]));
        }
        text::lemma_pieces_joined(way, '/');
    }
}

/// The route as it is left when it was settled.
proof fn lemma_way(
    s: Seq<char>,
    theirs: Seq<Seq<char>>,
    raw: Seq<Seq<char>>,
    shared: int,
    absolute: bool,
)
    requires
        is_normal(s) && s == normal(s),
        (root_len(s) > 0) == absolute,
        has_shape(theirs, absolute),
        shared == text::shared_len(segments_of(s), theirs),
        raw == if route(segments_of(s), theirs).len() > 0 {
            route(segments_of(s), theirs)
        } else {
            seq![Seq::<char>::empty()]
        },
    ensures
        s != here() ==> settled(raw, false) == route(segments_of(s), theirs),
        s == here() ==> shared == 0 && settled(raw, false) == Seq::new(
            theirs.len(),
            |i: int| up(),
        ),
{
    lemma_segments_of_normal(s);
    let mine = segments_of(s);
    text::lemma_shared_len(mine, theirs);
    let climbs = Seq::new((theirs.len() - shared) as nat, |i: int| up());
    let parts = climbs + mine.skip(shared);
    assert(parts == route(mine, theirs));
    if s == here() {
        if shared == 1 {
            assert(theirs[0] == mine[0]) by {
                assert(mine.take(1)[0] == theirs.take(1)[0]);
            }
            assert(theirs[0] != here());
        }
        assert(shared == 0);
        assert(mine.skip(0) =~= seq![here()]);
        assert(parts.drop_last() =~= climbs);
        assert(parts.last() == here());
        assert(settled(parts, false) == settled(climbs, false));
        lemma_shape_settles(climbs, false);
        assert(climbs =~= Seq::new(theirs.len(), |i: int| up()));
    } else {
        // `..` behind the climbs can only follow nothing but `..`.
        assert(has_shape(parts, false)) by {
            assert forall|i: int| 0 <= i < parts.len() implies (#[trigger] parts[i]).len() > 0
                && parts[i] != here() by {
                if i >= climbs.len() {
                    assert(parts[i] == mine[i - climbs.len() + shared]);
                } else {
                    assert(parts[i] == up());
                    assert(up().len() == 2 && here().len() == 1);
                }
            }
            assert forall|i: int| 0 <= i < parts.len() && #[trigger] parts[i] == up() implies (
            forall|j: int| 0 <= j < i ==> #[trigger] parts[j] == up()) by {
                assert forall|j: int| 0 <= j < i implies #[trigger] parts[j] == up() by {
                    if j >= climbs.len() {
                        assert(parts[i] == mine[i - climbs.len() + shared]);
                        assert(parts[j] == mine[j - climbs.len() + shared]);
                    }
                }
            }
        }
        if parts.len() > 0 {
            lemma_shape_settles(parts, false);
        } else {
            assert(raw.drop_last() =~= Seq::empty());
            reveal_with_fuel(settled, 2);
            assert(settled(raw, false) =~= parts);
        }
    }
}

/// Climbing out of `theirs` and going down leads to the segments of `s`.
proof fn lemma_way_leads_back(
    s: Seq<char>,
    theirs: Seq<Seq<char>>,
    raw: Seq<Seq<char>>,
    way: Seq<Seq<char>>,
    shared: int,
    absolute: bool,
)
    requires
        is_normal(s) && s == normal(s),
        (root_len(s) > 0) == absolute,
        has_shape(theirs, absolute),
        shared == text::shared_len(segments_of(s), theirs),
        !theirs.skip(shared).contains(up()),
        raw == if route(segments_of(s), theirs).len() > 0 {
            route(segments_of(s), theirs)
        } else {
            seq![Seq::<char>::empty()]
        },
        way == settled(raw, false),
    ensures
        settled(theirs + way, absolute) == settled_segments(s),
{
    lemma_segments_of_normal(s);
    lemma_way(s, theirs, raw, shared, absolute);
    let mine = segments_of(s);
    let goal = settled_segments(s);
    text::lemma_shared_len(mine, theirs);
    let climbs = Seq::new((theirs.len() - shared) as nat, |i: int| up());
    assert forall|i: int| shared <= i < theirs.len() implies #[trigger] theirs[i] != up() by {
        if theirs[i] == up() {
            assert(theirs.skip(shared)[i - shared] == up());
            assert(theirs.skip(shared).contains(up()));
        }
    }
    lemma_climb(theirs, shared, absolute);
    if s == here() {
        assert(way =~= climbs);
        assert(theirs.take(0) =~= goal);
    } else {
        let tail = mine.skip(shared);
        assert(way == climbs + tail);
        assert(theirs + way =~= (theirs + climbs) + tail);
        lemma_settled_concat(theirs + climbs, tail, absolute);
        lemma_descend(mine, shared, absolute);
    }
}

// ---------------------------------------------------------------------------
// Paths as segments.

/// The text of a normal form, and what it settles to: its root, and its segments
/// but for the lone `.`.
proof fn lemma_normal_text(s: Seq<char>)
    requires
        s == normal(s),
    ensures
        is_normal(s),
        normal_root(s) == root_of(s),
        s != here() ==> s == root_of(s) + text::joined(settled_segments(s), seq!['/']),
        s == here() ==> settled_segments(s).len() == 0 && root_len(s) == 0,
        has_shape(settled_segments(s), root_len(s) > 0),
        !s.contains('\\'),
        forall|i: int|
            0 <= i < settled_segments(s).len() ==> is_segment(#[trigger] settled_segments(s)[i]),
        s.len() > 0,
{
    normalizing_yields_a_normal_form(s);
    lemma_segments_of_normal(s);
}

/// A normal form is its root followed by its segments.
proof fn lemma_root_and_segments(s: Seq<char>)
    requires
        s == normal(s),
    ensures
        s == root_of(s) + text::joined(segments_of(s), seq!['/']),
        root_len(s) == 0 || root_of(s) == seq!['/'] || (root_len(s) == 3 && 'A' <= s[0] && s[0]
            <= 'Z' && s[1] == ':' && s[2] == '/'),
        forall|i: int|
            0 <= i < segments_of(s).len() ==> {
                let segment = #[trigger] segments_of(s)[i];
                segment.len() > 0 && !segment.contains('/') && !segment.contains('\\') && (root_len(s)
                    > 0 ==> segment != here() && segment != up())
            },
{
    lemma_normal_text(s);
    lemma_segments_of_normal(s);
    normalizing_yields_a_normal_form(s);
    let segments = segments_of(s);
    if s == here() {
        assert(root_of(s) + text::joined(seq![here()], seq!['/']) =~= s);
        assert(!here().contains('/') && !here().contains('\\'));
    } else {
        assert forall|i: int| 0 <= i < segments.len() implies {
            let segment = #[trigger] segments[i];
            segment.len() > 0 && !segment.contains('/') && !segment.contains('\\') && (root_len(s)
                > 0 ==> segment != here() && segment != up())
        } by {
            assert(is_segment(settled_segments(s)[i]));
        }
    }
    if root_len(s) > 1 {
        assert(normal_root(s).len() == 3);
        assert(root_of(s).len() == root_len(s));
        let root = normal_root(s);
        assert(root[0] == s[0] && root[1] == s[1] && root[2] == s[2]);
        assert(is_letter(s[0]));
    }
}

/// The file name of a normal form is its last segment.
proof fn lemma_file_name(s: Seq<char>)
    requires
        s == normal(s),
    ensures
        file_name_of(s) == if segments_of(s).len() == 0 || segments_of(s).last() == here()
            || segments_of(s).last() == up() {
            None
        } else {
            Some(segments_of(s).last())
        },
        file_name_of(s) matches Some(name) ==> name.len() > 0 && !name.contains('/'),
{
    lemma_normal_text(s);
    lemma_segments_of_normal(s);
    let segments = settled_segments(s);
    let body = s.skip(root_len(s) as int);
    let raw = text::pieces(body, '/');
    if s == here() {
        assert(body =~= here());
        text::lemma_pieces_whole(here(), '/');
    } else if segments.len() > 0 {
        assert(body =~= text::joined(segments, seq!['/']));
        assert forall|i: int| 0 <= i < segments.len() implies !(#[trigger] segments[i]).contains(
            '/',
        ) by {
            assert(is_segment(segments[i]));
        }
        text::lemma_pieces_joined(segments, '/');
        assert(is_segment(segments[segments.len() - 1]));
    } else {
        assert(body =~= Seq::empty());
        text::lemma_pieces_whole(Seq::empty(), '/');
    }
}

/// What a normal form and more text behind a separator settle to.
proof fn lemma_settled_behind(s: Seq<char>, b: Seq<char>)
    requires
        s == normal(s),
    ensures
        ({
            let t = s + seq!['/'] + b;
            &&& root_len(t) == root_len(s)
            &&& normal_root(t) == normal_root(s)
            &&& settled_segments(t) == settled(
                settled_segments(s) + text::pieces(forward(b), '/'),
                root_len(s) > 0,
            )
        }),
{
    lemma_normal_text(s);
    normalizing_yields_a_normal_form(s);
    let absolute = root_len(s) > 0;
    let t = s + seq!['/'] + b;
    let root = root_of(s);
    let body = s.skip(root_len(s) as int);
    let segments = settled_segments(s);
    assert(root_len(t) == root_len(s)) by {
        assert(t[0] == s[0]);
        assert(s.len() >= 2 ==> t[1] == s[1]);
        assert(s.len() >= 3 ==> t[2] == s[2]);
        if s.len() == 1 {
            assert(t[1] == '/');
        }
        if root_len(s) == 2 {
            assert(normal_root(s).len() == 3);
            assert(root_of(s).len() == 2);
        }
        if s.len() == 2 && root_len(s) == 0 {
            assert(t[2] == '/');
        }
    }
    assert(normal_root(t) == normal_root(s)) by {
        assert(t[0] == s[0]);
    }
    let rest = t.skip(root_len(t) as int);
    assert(rest =~= body + seq!['/'] + b);
    assert(forward(rest) =~= body + seq!['/'] + forward(b)) by {
        assert forall|i: int| 0 <= i < body.len() implies body[i] != '\\' by {
            assert(s[i + root_len(s)] == body[i]);
            assert(s.contains(body[i]));
        }
    }
    lemma_pieces_concat(body, forward(b));
    let first = text::pieces(body, '/');
    if s == here() {
        assert(body =~= here());
        text::lemma_pieces_whole(here(), '/');
        let one = seq![here()];
        assert(one.drop_last() =~= Seq::empty());
        reveal_with_fuel(settled, 2);
        assert(settled(first, absolute) =~= segments);
    } else if segments.len() > 0 {
        assert(body =~= text::joined(segments, seq!['/']));
        assert forall|i: int| 0 <= i < segments.len() implies !(#[trigger] segments[i]).contains(
            '/',
        ) by {
            assert(is_segment(segments[i]));
        }
        text::lemma_pieces_joined(segments, '/');
        lemma_shape_settles(segments, absolute);
    } else {
        assert(body =~= Seq::empty());
        text::lemma_pieces_whole(Seq::empty(), '/');
        let one = seq![Seq::<char>::empty()];
        assert(one.drop_last() =~= Seq::empty());
        reveal_with_fuel(settled, 2);
        assert(settled(first, absolute) =~= segments);
    }
    lemma_settled_concat(first, text::pieces(forward(b), '/'), absolute);
}

/// What a text and more text behind a separator settle to.
proof fn lemma_settled_text(t: Seq<char>, b: Seq<char>)
    requires
        t.len() >= 3,
    ensures
        ({
            let whole = t + seq!['/'] + b;
            &&& root_len(whole) == root_len(t)
            &&& normal_root(whole) == normal_root(t)
            &&& settled_segments(whole) == settled(
                settled_segments(t) + text::pieces(forward(b), '/'),
                root_len(t) > 0,
            )
        }),
{
    let whole = t + seq!['/'] + b;
    assert(whole[0] == t[0] && whole[1] == t[1] && whole[2] == t[2]);
    let body = t.skip(root_len(t) as int);
    assert(whole.skip(root_len(t) as int) =~= body + seq!['/'] + b);
    assert(forward(body + seq!['/'] + b) =~= forward(body) + seq!['/'] + forward(b));
    lemma_pieces_concat(forward(body), forward(b));
    lemma_settled_concat(
        text::pieces(forward(body), '/'),
        text::pieces(forward(b), '/'),
        root_len(t) > 0,
    );
}

/// Joining twice is joining once, where the first join does not turn a relative
/// path into one that reads as a drive.
proof fn lemma_join_twice(p: Seq<char>, a: Seq<char>, b: Seq<char>, c: Seq<char>)
    requires
        p.len() > 0,
        root_len(a) == 0,
        a.len() > 0,
        root_len(b) == 0,
        root_len(p + seq!['/'] + a) > 0 || root_len(joined_path(p, a)) == 0,
        root_len(c) > 0,
    ensures
        joined_path(joined_path(p, a), b) == joined_path(p, a + seq!['/'] + b),
        p == normal(p) ==> joined_path(p, here()) == p,
        joined_path(p, c) == normal(c),
{
    let t = p + seq!['/'] + a;
    let n = joined_path(p, a);
    let both = a + seq!['/'] + b;
    assert(p + seq!['/'] + both =~= t + seq!['/'] + b);
    lemma_settled_text(t, b);
    normalizing_is_idempotent(t);
    lemma_settled_behind(n, b);
    assert(root_len(both) == 0) by {
        assert(both[0] == a[0]);
        assert(a.len() >= 2 ==> both[1] == a[1]);
        if a.len() == 1 {
            assert(both[1] == '/');
        }
    }
    assert(normal_root(n).len() == normal_root(t).len());
    if p == normal(p) {
        // `.` settles to nothing.
        let base = settled_segments(p);
        lemma_settled_behind(p, here());
        lemma_normal_text(p);
        assert(forward(here()) =~= here());
        text::lemma_pieces_whole(here(), '/');
        let dotted = base + seq![here()];
        assert(dotted.drop_last() =~= base);
        lemma_shape_settles(base, root_len(p) > 0);
        assert(settled_segments(p + seq!['/'] + here()) == base);
    }
}

/// The parent of a normal form.
proof fn lemma_parent(p: Seq<char>)
    requires
        p == normal(p),
    ensures
        parent_of(p) is None <==> root_len(p) > 0 && segments_of(p).len() == 0,
        parent_of(p) matches Some(parent) ==> parent == joined_path(p, up()),
        (parent_of(p), file_name_of(p)) matches (Some(parent), Some(name)) ==> (root_len(name) == 0
            && (root_len(p) > 0 || root_len(parent) == 0) ==> joined_path(parent, name) == p),
{
    let absolute = root_len(p) > 0;
    let segments = settled_segments(p);
    let t = p + seq!['/'] + up();
    lemma_normal_text(p);
    lemma_segments_of_normal(p);
    lemma_settled_behind(p, up());
    assert(forward(up()) =~= up());
    assert(!up().contains('/'));
    text::lemma_pieces_whole(up(), '/');
    let raw = segments + seq![up()];
    assert(raw.drop_last() =~= segments);
    lemma_shape_settles(segments, absolute);
    let above = with_segment(segments, up(), absolute);
    assert(settled_segments(t) == above);
    let parent = joined_path(p, up());
    assert(parent == normal(t));
    // Whether climbing leads anywhere else.
    if absolute && segments.len() == 0 {
        assert(parent =~= p);
    } else if parent == p {
        if root_len(parent) > 0 || root_len(t) == 0 {
            normalizing_is_idempotent(t);
        }
        assert(above == segments);
        assert(above.len() != segments.len());
    }
    if let Some(name) = file_name_of(p) {
        lemma_file_name(p);
        assert(segments.last() == name);
        assert(above =~= segments.drop_last());
        if root_len(name) == 0 && (root_len(p) > 0 || root_len(parent) == 0) {
            normalizing_is_idempotent(t);
            lemma_settled_behind(parent, name);
            assert(is_segment(segments[segments.len() - 1]));
            lemma_forward_same(name);
            text::lemma_pieces_whole(name, '/');
            let back = above + seq![name];
            assert(back =~= segments);
            assert(normal_root(t) == normal_root(p));
        }
    }
}

/// Paths without a colon lead to each other.
proof fn lemma_relative_way(s: Seq<char>, base: Seq<char>)
    requires
        s == normal(s),
        base == normal(base),
        !s.contains(':'),
        !base.contains(':'),
        base != here(),
    ensures
        relative_path(s, base) matches Some(rel) ==> root_len(rel) == 0 && joined_path(base, rel)
            == s,
        root_len(s) > 0 && root_len(base) > 0 ==> relative_path(s, base) is Some,
        (root_len(s) > 0) != (root_len(base) > 0) ==> relative_path(s, base) is None,
        root_len(base) > 0 ==> relative_path(base, base) == Some(here()),
{
    lemma_normal_text(s);
    lemma_normal_text(base);
    lemma_segments_of_normal(s);
    lemma_segments_of_normal(base);
    lemma_no_drive(s);
    lemma_no_drive(base);
    let mine = segments_of(s);
    let theirs = segments_of(base);
    text::lemma_shared_len(mine, theirs);
    let way = route(mine, theirs);
    if relative_path(s, base) is Some {
        lemma_route_is_relative(s, base);
        relative_path_leads_back(s, base);
    }
    text::lemma_shared_len(theirs, theirs);
    text::lemma_shared_len_is(theirs, theirs, theirs.len() as int);
    assert(route(theirs, theirs) =~= Seq::empty());
    lemma_nothing_is_here();
}

/// Without a colon the only root is `/`.
proof fn lemma_no_drive(s: Seq<char>)
    requires
        !s.contains(':'),
    ensures
        root_len(s) <= 1,
{
    if root_len(s) > 1 {
        assert(s.contains(s[1]));
    }
}

/// No segment of a path without a colon has one.
proof fn lemma_segments_without_colon(s: Seq<char>)
    requires
        s == normal(s),
        !s.contains(':'),
    ensures
        forall|i: int| 0 <= i < segments_of(s).len() ==> !(#[trigger] segments_of(s)[i]).contains(':'),
{
    lemma_normal_text(s);
    lemma_segments_of_normal(s);
    let segments = segments_of(s);
    if s == here() {
        assert(!here().contains(':'));
    } else if segments.len() > 0 {
        let body = s.skip(root_len(s) as int);
        assert(body =~= text::joined(segments, seq!['/']));
        assert forall|i: int| 0 <= i < segments.len() implies !(#[trigger] segments[i]).contains(
            '/',
        ) by {
            assert(is_segment(settled_segments(s)[i]));
        }
        text::lemma_pieces_joined(segments, '/');
        text::lemma_pieces_clean(body, '/');
        assert forall|i: int| 0 <= i < segments.len() implies !(#[trigger] segments[i]).contains(
            ':',
        ) by {
            if segments[i].contains(':') {
                assert(text::pieces(body, '/')[i].contains(':'));
                assert(body.contains(':'));
                let k = choose|k: int| 0 <= k < body.len() && body[k] == ':';
                assert(s[k + root_len(s)] == ':');
            }
        }
    }
}

/// The way from one path to another does not start at a root.
proof fn lemma_route_is_relative(s: Seq<char>, base: Seq<char>)
    requires
        s == normal(s),
        base == normal(base),
        !s.contains(':'),
        base != here(),
        relative_path(s, base) is Some,
    ensures
        root_len(text::joined(route(segments_of(s), segments_of(base)), seq!['/'])) == 0,
        root_len(relative_path(s, base)->0) == 0,
{
    let mine = segments_of(s);
    let theirs = segments_of(base);
    let parts = route(mine, theirs);
    let whole = text::joined(parts, seq!['/']);
    let shared = text::shared_len(mine, theirs) as int;
    text::lemma_shared_len(mine, theirs);
    lemma_normal_text(s);
    lemma_normal_text(base);
    lemma_segments_without_colon(s);
    lemma_root_and_segments(s);
    let climbs = theirs.len() - shared;
    assert forall|i: int| 0 <= i < parts.len() implies (#[trigger] parts[i]).len() > 0
        && !parts[i].contains('/') && !parts[i].contains('\\') && !parts[i].contains(':') by {
        if i >= climbs {
            assert(parts[i] == mine[i - climbs + shared]);
        } else {
            assert(parts[i] == up());
        }
    }
    if parts.len() > 0 {
        assert(whole[0] == parts[0][0]) by {
            if parts.len() > 1 {
                text::lemma_joined_front(parts, seq!['/']);
            }
        }
        assert(parts[0].contains(parts[0][0]));
        if root_len(whole) > 1 {
            assert(whole.contains(whole[1]));
            text::lemma_joined_contains(parts, seq!['/'], ':');
        }
    }
    lemma_relative_path(s, base);
}

// ---------------------------------------------------------------------------
// Laws of paths, by the texts that they are made from.

/// Whether a text stays relative where it is: a relative text can settle to one
/// that reads as a drive, as `./c:/x` does.
pub open spec fn keeps_its_root(s: Seq<char>) -> bool {
    root_len(s) > 0 || root_len(normal(s)) == 0
}

/// Whether no part of a text behind its root reads as a drive.
pub open spec fn reads_no_drive(s: Seq<char>) -> bool {
    let parts = text::pieces(forward(s.skip(root_len(s) as int)), '/');
    forall|i: int| 0 <= i < parts.len() ==> root_len(#[trigger] parts[i]) == 0
}

/// Whether a colon stands nowhere but in the second place.
pub open spec fn has_plain_colons(s: Seq<char>) -> bool {
    forall|i: int| 0 <= i < s.len() && i != 1 ==> s[i] != ':'
}

/// Settled segments are some of the given ones, or climb.
proof fn lemma_settled_from(raw: Seq<Seq<char>>, absolute: bool)
    ensures
        forall|i: int|
            0 <= i < settled(raw, absolute).len() ==> (#[trigger] settled(raw, absolute)[i]) == up()
                || raw.contains(settled(raw, absolute)[i]),
    decreases raw.len(),
{
    if raw.len() > 0 {
        let front = raw.drop_last();
        let done = settled(front, absolute);
        let next = settled(raw, absolute);
        lemma_settled_from(front, absolute);
        assert forall|i: int| 0 <= i < next.len() implies (#[trigger] next[i]) == up()
            || raw.contains(next[i]) by {
            if i < done.len() {
                assert(next[i] == done[i]);
                if done[i] != up() {
                    let k = choose|k: int| 0 <= k < front.len() && front[k] == done[i];
                    assert(raw[k] == next[i]);
                }
            } else {
                assert(raw[raw.len() - 1] == next[i]);
            }
        }
    }
}

/// The first of settled segments is the first of those that were settled before,
/// or came after them, or climbs.
proof fn lemma_first_settled(base: Seq<Seq<char>>, more: Seq<Seq<char>>)
    requires
        has_shape(base, false),
        settled(base + more, false).len() > 0,
    ensures
        ({
            let first = settled(base + more, false)[0];
            first == up() || more.contains(first) || (base.len() > 0 && first == base[0])
        }),
    decreases more.len(),
{
    if more.len() == 0 {
        assert(base + more =~= base);
        lemma_shape_settles(base, false);
    } else {
        let front = more.drop_last();
        assert((base + more).drop_last() =~= base + front);
        assert((base + more).last() == more.last());
        assert(more[more.len() - 1] == more.last());
        let done = settled(base + front, false);
        if done.len() > 0 {
            lemma_first_settled(base, front);
            assert(settled(base + more, false)[0] == done[0]);
            if front.contains(done[0]) {
                let k = choose|k: int| 0 <= k < front.len() && front[k] == done[0];
                assert(more[k] == done[0]);
            }
        }
    }
}

/// A relative text stays relative where its first segment reads as no drive.
proof fn lemma_stays_relative(t: Seq<char>)
    requires
        root_len(t) == 0,
        settled_segments(t).len() > 0 ==> root_len(settled_segments(t)[0]) == 0,
    ensures
        root_len(normal(t)) == 0,
{
    normalizing_yields_a_normal_form(t);
    let segments = settled_segments(t);
    let n = normal(t);
    if segments.len() > 0 {
        let first = segments[0];
        assert(is_segment(first));
        assert(first.contains(first[0]));
        assert(n =~= text::joined(segments, seq!['/']));
        if segments.len() > 1 {
            text::lemma_joined_front(segments, seq!['/']);
            assert(n[0] == first[0]);
            if first.len() >= 2 {
                assert(n[1] == first[1]);
            } else {
                assert(n[1] == '/');
            }
        } else {
            assert(n =~= first) by {
                reveal_with_fuel(text::joined, 2);
                assert(segments.drop_last() =~= Seq::empty());
            }
        }
    }
}

/// A text without drives in it is normalized once and for all, and none of its
/// segments reads as a drive.
proof fn lemma_no_drives(s: Seq<char>)
    requires
        reads_no_drive(s),
    ensures
        keeps_its_root(s),
        normal(normal(s)) == normal(s),
        forall|i: int|
            0 <= i < settled_segments(normal(s)).len() ==> root_len(
                #[trigger] settled_segments(normal(s))[i],
            ) == 0,
{
    let parts = text::pieces(forward(s.skip(root_len(s) as int)), '/');
    lemma_settled_from(parts, root_len(s) > 0);
    assert(root_len(up()) == 0);
    assert forall|i: int| 0 <= i < settled_segments(s).len() implies root_len(
        #[trigger] settled_segments(s)[i],
    ) == 0 by {
        let segment = settled_segments(s)[i];
        if segment != up() {
            let k = choose|k: int| 0 <= k < parts.len() && parts[k] == segment;
            assert(root_len(parts[k]) == 0);
        }
    }
    if root_len(s) == 0 {
        lemma_stays_relative(s);
    }
    normalizing_is_idempotent(s);
}

proof fn lemma_plain_parts(u: Seq<char>)
    requires
        forall|i: int| 2 <= i < u.len() ==> u[i] != ':',
        root_len(u) <= 1,
    ensures
        forall|i: int|
            0 <= i < text::pieces(u, '/').len() ==> root_len(#[trigger] text::pieces(u, '/')[i])
                <= 1,
    decreases u.len(),
{
    text::lemma_first_index(u, '/');
    let at = text::first_index(u, '/') as int;
    if at < u.len() {
        let head = u.take(at);
        let rest = u.skip(at + 1);
        assert(rest.len() >= 2 ==> rest[1] == u[at + 2]);
        assert forall|i: int| 2 <= i < rest.len() implies rest[i] != ':' by {
            assert(rest[i] == u[i + at + 1]);
        }
        lemma_plain_parts(rest);
        assert(!head.contains('/'));
        text::lemma_pieces_step(head, rest, '/');
        assert(u =~= head + seq!['/'] + rest);
        assert(root_len(head) <= 1) by {
            assert(head.len() >= 1 ==> head[0] == u[0]);
            assert(head.len() >= 2 ==> head[1] == u[1]);
        }
    } else {
        assert(!u.contains('/'));
        text::lemma_pieces_whole(u, '/');
    }
}

/// A text whose only colon stands in the second place has no drive behind its root,
/// and so keeps it.
pub proof fn plain_colons_read_as_no_drive(s: Seq<char>)
    requires
        has_plain_colons(s),
    ensures
        reads_no_drive(s),
        keeps_its_root(s),
        normal(normal(s)) == normal(s),
{
    let u = forward(s.skip(root_len(s) as int));
    let parts = text::pieces(u, '/');
    assert forall|i: int| 2 <= i < u.len() implies u[i] != ':' by {
        assert(u[i] == ':' ==> s[i + root_len(s)] == ':');
    }
    assert(root_len(u) <= 1) by {
        if u.len() >= 2 && u[1] == ':' {
            assert(s[1 + root_len(s) as int] == ':');
            assert(u[0] == s[0] || s[0] == '\\');
        }
    }
    lemma_plain_parts(u);
    lemma_forward_pieces(s.skip(root_len(s) as int));
    assert forall|i: int| 0 <= i < parts.len() implies root_len(#[trigger] parts[i]) == 0 by {
        if parts[i].len() > 0 {
            assert(parts[i].contains(parts[i][0]));
        }
    }
    lemma_no_drives(s);
}

/// A path is its root followed by its segments, with `/` between them. No segment is
/// empty or holds a separator, and below a root none is `.` or `..`.
///
/// Left out are relative texts that settle to one that reads as a drive.
pub proof fn paths_are_root_and_segments(given: Seq<char>)
    requires
        keeps_its_root(given),
    ensures
        ({
            let s = normal(given);
            &&& s == root_of(s) + text::joined(segments_of(s), seq!['/'])
            &&& root_len(s) == 0 || root_of(s) == seq!['/'] || (root_len(s) == 3 && 'A' <= s[0]
                && s[0] <= 'Z' && s[1] == ':' && s[2] == '/')
            &&& forall|i: int|
                0 <= i < segments_of(s).len() ==> {
                    let segment = #[trigger] segments_of(s)[i];
                    segment.len() > 0 && !segment.contains('/') && !segment.contains('\\') && (
                    root_len(s) > 0 ==> segment != here() && segment != up())
                }
        }),
{
    normalizing_is_idempotent(given);
    lemma_root_and_segments(normal(given));
}

/// The file name is the last segment, unless that is `.` or `..` or there is none.
///
/// Left out are relative texts that settle to one that reads as a drive.
pub proof fn file_name_is_the_last_segment(given: Seq<char>)
    requires
        keeps_its_root(given),
    ensures
        ({
            let s = normal(given);
            &&& file_name_of(s) == if segments_of(s).len() == 0 || segments_of(s).last() == here()
                || segments_of(s).last() == up() {
                None
            } else {
                Some(segments_of(s).last())
            }
            &&& file_name_of(s) matches Some(name) ==> name.len() > 0 && !name.contains('/')
        }),
{
    normalizing_is_idempotent(given);
    lemma_file_name(normal(given));
}

/// Only a root has no parent; every other path's is what `..` behind it leads to,
/// and joining the file name to the parent gives the path back.
///
/// Left out are texts with a part that reads as a drive behind their root.
pub proof fn parents_hold_their_files(given: Seq<char>)
    requires
        reads_no_drive(given),
    ensures
        ({
            let p = normal(given);
            &&& parent_of(p) is None <==> root_len(p) > 0 && segments_of(p).len() == 0
            &&& parent_of(p) matches Some(parent) ==> parent == joined_path(p, up())
            &&& (parent_of(p), file_name_of(p)) matches (Some(parent), Some(name)) ==> joined_path(
                parent,
                name,
            ) == p
        }),
{
    let p = normal(given);
    lemma_no_drives(given);
    normalizing_yields_a_normal_form(given);
    lemma_parent(p);
    lemma_file_name(p);
    lemma_segments_of_normal(p);
    if let (Some(parent), Some(name)) = (parent_of(p), file_name_of(p)) {
        let segments = settled_segments(p);
        assert(segments.len() > 0);
        assert(root_len(segments[segments.len() - 1]) == 0);
        assert(root_len(name) == 0);
        if root_len(p) == 0 {
            let t = p + seq!['/'] + up();
            lemma_settled_behind(p, up());
            assert(forward(up()) =~= up());
            assert(!up().contains('/'));
            text::lemma_pieces_whole(up(), '/');
            lemma_normal_text(p);
            if settled_segments(t).len() > 0 {
                lemma_first_settled(segments, seq![up()]);
                assert(root_len(up()) == 0);
                assert(root_len(segments[0]) == 0);
            }
            lemma_stays_relative(t);
        }
    }
}

/// Joining twice is joining once, with the parts put together; and what is absolute
/// replaces what it is joined to. Joining `.` changes nothing in a path without a
/// colon, or in any other that keeps its root.
pub proof fn joins_associate(given: Seq<char>, a: Seq<char>, b: Seq<char>, c: Seq<char>)
    requires
        root_len(a) == 0,
        a.len() > 0,
        !a.contains(':'),
        root_len(b) == 0,
        root_len(c) > 0,
    ensures
        ({
            let p = normal(given);
            &&& joined_path(joined_path(p, a), b) == joined_path(p, a + seq!['/'] + b)
            &&& joined_path(p, c) == normal(c)
            &&& keeps_its_root(given) || !p.contains(':') ==> joined_path(p, here()) == p
        }),
{
    let p = normal(given);
    let t = p + seq!['/'] + a;
    normalizing_yields_a_normal_form(given);
    assert(p.len() > 0) by {
        let segments = settled_segments(given);
        if segments.len() > 0 {
            assert(is_segment(segments[0]));
            lemma_weight_joined(segments);
            if segments.len() > 1 {
                text::lemma_joined_front(segments, seq!['/']);
            } else {
                reveal_with_fuel(text::joined, 2);
                assert(segments.drop_last() =~= Seq::empty());
                assert(text::joined(segments, seq!['/']) =~= segments[0]);
            }
        }
    }
    if !p.contains(':') {
        lemma_no_colon_keeps_root(given);
    }
    if keeps_its_root(given) {
        normalizing_is_idempotent(given);
    }
    if root_len(t) == 0 {
        assert(root_len(p) == 0) by {
            assert(t[0] == p[0]);
            assert(p.len() >= 2 ==> t[1] == p[1]);
        }
        normalizing_is_idempotent(given);
        lemma_normal_text(p);
        lemma_settled_behind(p, a);
        let base = settled_segments(p);
        let parts = text::pieces(forward(a), '/');
        if settled_segments(t).len() > 0 {
            lemma_first_settled(base, parts);
            let first = settled_segments(t)[0];
            assert(root_len(up()) == 0);
            if first != up() && parts.contains(first) {
                let k = choose|k: int| 0 <= k < parts.len() && parts[k] == first;
                lemma_parts_without_colon(a, k);
                normalizing_yields_a_normal_form(t);
                assert(is_segment(first));
                if first.len() >= 2 {
                    assert(first.contains(first[1]));
                }
                assert(first.contains(first[0]));
            } else if first != up() {
                lemma_first_reads_as_path(p);
            }
        }
        lemma_stays_relative(t);
    }
    lemma_join_twice(p, a, b, c);
}

proof fn lemma_parts_without_colon(a: Seq<char>, k: int)
    requires
        !a.contains(':'),
        0 <= k < text::pieces(forward(a), '/').len(),
    ensures
        !text::pieces(forward(a), '/')[k].contains(':'),
{
    let u = forward(a);
    text::lemma_pieces_clean(u, '/');
    if text::pieces(u, '/')[k].contains(':') {
        assert(u.contains(':'));
        let i = choose|i: int| 0 <= i < u.len() && u[i] == ':';
        assert(a[i] == ':');
    }
}

/// The first segment of a relative path reads as no drive.
proof fn lemma_first_reads_as_path(p: Seq<char>)
    requires
        p == normal(p),
        root_len(p) == 0,
        settled_segments(p).len() > 0,
    ensures
        root_len(settled_segments(p)[0]) == 0,
{
    lemma_normal_text(p);
    let segments = settled_segments(p);
    let first = segments[0];
    assert(is_segment(first));
    assert(first.contains(first[0]));
    assert(p != here());
    assert(p =~= text::joined(segments, seq!['/']));
    if segments.len() > 1 {
        text::lemma_joined_front(segments, seq!['/']);
    } else {
        reveal_with_fuel(text::joined, 2);
        assert(segments.drop_last() =~= Seq::empty());
        assert(p =~= first);
    }
    assert(p[0] == first[0]);
    assert(first.len() >= 2 ==> p[1] == first[1]);
}

/// A text that settles to one without a colon keeps its root.
proof fn lemma_no_colon_keeps_root(s: Seq<char>)
    requires
        !normal(s).contains(':'),
    ensures
        keeps_its_root(s),
{
    normalizing_yields_a_normal_form(s);
    let n = normal(s);
    lemma_no_drive(n);
    if root_len(s) == 0 && root_len(n) > 0 {
        let segments = settled_segments(s);
        assert(segments.len() > 0);
        let first = segments[0];
        assert(is_segment(first));
        assert(first.contains(first[0]));
        assert(n =~= text::joined(segments, seq!['/']));
        if segments.len() > 1 {
            text::lemma_joined_front(segments, seq!['/']);
        } else {
            reveal_with_fuel(text::joined, 2);
            assert(segments.drop_last() =~= Seq::empty());
            assert(n =~= first);
        }
        assert(n[0] == first[0]);
    }
}

/// A path without a colon, joined to a base without one, is led to by its path
/// relative to that base. Between two absolute paths there always is one; from an
/// absolute to a relative path, or back, there is none; and from a path to itself
/// it is `.`.
///
/// Left out is the base `.`, which counts as a segment of its own.
pub proof fn relative_paths_lead_back(given: Seq<char>, from: Seq<char>)
    requires
        !normal(given).contains(':'),
        !normal(from).contains(':'),
        normal(from) != here(),
    ensures
        ({
            let s = normal(given);
            let base = normal(from);
            &&& relative_path(s, base) matches Some(rel) ==> root_len(rel) == 0 && joined_path(
                base,
                rel,
            ) == s
            &&& root_len(s) > 0 && root_len(base) > 0 ==> relative_path(s, base) is Some
            &&& (root_len(s) > 0) != (root_len(base) > 0) ==> relative_path(s, base) is None
            &&& root_len(base) > 0 ==> relative_path(base, base) == Some(here())
        }),
{
    lemma_no_colon_keeps_root(given);
    lemma_no_colon_keeps_root(from);
    normalizing_is_idempotent(given);
    normalizing_is_idempotent(from);
    lemma_relative_way(normal(given), normal(from));
}

// ---------------------------------------------------------------------------
// Absolute paths.

/// Whether a path is absolute, and in normal form.
pub open spec fn is_anchored(p: Seq<char>) -> bool {
    p == normal(p) && root_len(p) > 0
}

/// What is absolute is anchored once it is normalized.
pub proof fn lemma_normal_is_anchored(s: Seq<char>)
    requires
        root_len(s) > 0,
    ensures
        is_anchored(normal(s)),
{
    normalizing_is_idempotent(s);
    assert(normal_root(normal(s)).len() > 0);
}

/// Whatever is joined to an absolute path gives an absolute one.
pub proof fn lemma_joined_is_anchored(base: Seq<char>, other: Seq<char>)
    requires
        is_anchored(base),
    ensures
        is_anchored(joined_path(base, other)),
{
    if root_len(other) > 0 {
        lemma_normal_is_anchored(other);
    } else {
        lemma_settled_behind(base, other);
        lemma_normal_is_anchored(base + seq!['/'] + other);
    }
}

/// An absolute path with a suffix is one.
pub proof fn lemma_suffixed_is_anchored(p: Seq<char>, suffix: Seq<char>)
    requires
        is_anchored(p),
    ensures
        is_anchored(normal(p + suffix)),
{
    let t = p + suffix;
    assert(root_len(t) > 0) by {
        assert(t[0] == p[0]);
        assert(p.len() >= 2 ==> t[1] == p[1]);
    }
    lemma_normal_is_anchored(t);
}

/// An absolute path with one suffix in place of another is one.
pub proof fn lemma_rewritten_is_anchored(p: Seq<char>, from: Seq<char>, to: Seq<char>)
    requires
        is_anchored(p),
        text::ends(p, from),
        !from.contains('/'),
    ensures
        is_anchored(normal(p.take(p.len() - from.len()) + to)),
{
    let n = p.len() - from.len();
    let t = p.take(n) + to;
    lemma_normal_text(p);
    let root = root_of(p);
    let last = root_len(p) - 1;
    normalizing_yields_a_normal_form(p);
    assert(root == normal_root(p));
    assert(root[last] == '/');
    assert(p[last] == '/');
    if last >= n {
        assert(from[last - n] == p[last]);
        assert(from.contains('/'));
    }
    assert(root_len(t) > 0) by {
        assert(t[0] == p[0]);
        if root_len(p) == 3 {
            assert(t[1] == p[1]);
        }
    }
    lemma_normal_is_anchored(t);
}

/// The parent of an absolute path is one.
pub proof fn lemma_parent_is_anchored(p: Seq<char>)
    requires
        is_anchored(p),
    ensures
        parent_of(p) matches Some(parent) ==> is_anchored(parent),
{
    lemma_joined_is_anchored(p, up());
}

// ---------------------------------------------------------------------------
// Plain relative paths.

/// Names, one or more, that make up a relative path without `.` and `..`.
pub open spec fn are_names(parts: Seq<Seq<char>>) -> bool {
    &&& parts.len() > 0
    &&& forall|i: int|
        0 <= i < parts.len() ==> is_segment(#[trigger] parts[i]) && parts[i] != up()
    &&& root_len(text::joined(parts, seq!['/'])) == 0
}

proof fn lemma_names_hold_no_backslash(parts: Seq<Seq<char>>)
    requires
        are_names(parts),
    ensures
        !text::joined(parts, seq!['/']).contains('\\'),
{
    let sep = seq!['/'];
    if text::joined(parts, sep).contains('\\') {
        text::lemma_joined_contains(parts, sep, '\\');
        if sep.contains('\\') {
            assert(sep[0] == '/');
        } else {
            let i = choose|i: int| 0 <= i < parts.len() && (#[trigger] parts[i]).contains('\\');
            assert(is_segment(parts[i]));
        }
    }
}

proof fn lemma_names_settle(parts: Seq<Seq<char>>)
    requires
        are_names(parts),
    ensures
        text::pieces(text::joined(parts, seq!['/']), '/') == parts,
        settled(parts, false) == parts,
        settled(seq![here()] + parts, false) == parts,
        parts.filter(|p: Seq<char>| p.len() > 0) == parts,
{
    assert forall|i: int| 0 <= i < parts.len() implies !(#[trigger] parts[i]).contains('/')
        && parts[i].len() > 0 && parts[i] != here() by {
        assert(is_segment(parts[i]));
    }
    text::lemma_pieces_joined(parts, '/');
    lemma_shape_settles(parts, false);
    lemma_filter_keeps_all(parts);
    lemma_settled_concat(seq![here()], parts, false);
    assert(settled(seq![here()], false) =~= Seq::empty()) by {
        assert(seq![here()].drop_last() =~= Seq::empty());
        reveal_with_fuel(settled, 2);
    }
    assert(Seq::<Seq<char>>::empty() + parts =~= parts);
}

/// Names joined by `/` are a normal form, also with `./` in front.
pub proof fn plain_paths_are_normal(parts: Seq<Seq<char>>)
    requires
        are_names(parts),
    ensures
        ({
            let p = text::joined(parts, seq!['/']);
            &&& text::pieces(p, '/') == parts
            &&& normal(p) == p
            &&& segments_of(p) == parts
            &&& normal(here() + seq!['/'] + p) == p
        }),
{
    let p = text::joined(parts, seq!['/']);
    lemma_names_hold_no_backslash(parts);
    lemma_names_settle(parts);
    lemma_forward_same(p);
    assert(p.skip(0) =~= p);
    assert(normal_root(p) + p =~= p);
    lemma_dotted_names(parts);
}

proof fn lemma_dotted_names(parts: Seq<Seq<char>>)
    requires
        are_names(parts),
    ensures
        normal(here() + seq!['/'] + text::joined(parts, seq!['/'])) == text::joined(
            parts,
            seq!['/'],
        ),
{
    let p = text::joined(parts, seq!['/']);
    let dotted = here() + seq!['/'] + p;
    lemma_names_hold_no_backslash(parts);
    lemma_names_settle(parts);
    assert(dotted[0] == '.');
    assert(root_len(dotted) == 0);
    assert(dotted.skip(0) =~= dotted);
    assert(!dotted.contains('\\')) by {
        if dotted.contains('\\') {
            let k = choose|k: int| 0 <= k < dotted.len() && dotted[k] == '\\';
            assert(k >= 2);
            assert(p[k - 2] == '\\');
        }
    }
    lemma_forward_same(dotted);
    assert(!here().contains('/'));
    text::lemma_pieces_step(here(), p, '/');
    assert(normal_root(dotted) + p =~= p);
}

/// The directory in which a name was put is its parent, and the name is the file name.
pub proof fn lemma_parent_tidy(base: Seq<char>, name: Seq<char>)
    requires
        base == here() || is_tidy(base),
        is_segment(name) && name != up() && root_len(name) == 0,
    ensures
        is_tidy(joined_path(base, name)),
        parent_of(joined_path(base, name)) == Some(base),
        file_name_of(joined_path(base, name)) == Some(name),
{
    lemma_name_is_tidy(name);
    lemma_joined_tidy(base, name);
    let t = joined_path(base, name);
    lemma_tidy(t);
    text::lemma_pieces_whole(name, '/');
    let above = if base == here() {
        Seq::empty()
    } else {
        settled_segments(base)
    };
    if base != here() {
        lemma_tidy(base);
        lemma_pieces_concat(base, name);
    }
    let whole = above.push(name);
    assert(settled_segments(t) =~= whole);
    let u = t + seq!['/'] + up();
    assert(!u.contains('\\')) by {
        if u.contains('\\') {
            let k = choose|k: int| 0 <= k < u.len() && u[k] == '\\';
            assert(k < t.len());
            assert(t[k] == '\\');
        }
    }
    assert(root_len(u) == 0) by {
        assert(u[0] == t[0]);
        assert(t.len() >= 2 ==> u[1] == t[1]);
        if t.len() == 1 {
            assert(u[1] == '/');
        }
    }
    assert(u.skip(0) =~= u);
    lemma_forward_same(u);
    lemma_pieces_concat(t, up());
    assert(!up().contains('/'));
    text::lemma_pieces_whole(up(), '/');
    let raw = whole + seq![up()];
    assert(raw.drop_last() =~= whole);
    assert(raw.last() == up());
    lemma_shape_settles(whole, false);
    assert(whole.last() == name);
    assert(whole.drop_last() =~= above);
    assert(settled_segments(u) == above);
    assert(normal_root(u) =~= Seq::empty());
    assert(normal(u) =~= base);
    assert(t != base) by {
        if base != here() {
            assert(t.len() > base.len());
        }
    }
    assert(root_len(up()) == 0);
    assert(t.skip(0) =~= t);
}

// ---------------------------------------------------------------------------
// Extensions and places.

/// The extension of a file is what follows the last dot of its name. A name without a
/// dot has none, and neither has one whose only dot comes first.
pub proof fn extensions_follow_the_last_dot(s: Seq<char>, stem: Seq<char>, extension: Seq<char>)
    requires
        !extension.contains('.'),
    ensures
        file_name_of(s) == Some(stem + seq!['.'] + extension) && stem.len() > 0 ==> extension_of(s)
            == Some(extension),
        file_name_of(s) == Some(extension) ==> extension_of(s) is None,
        file_name_of(s) == Some(seq!['.'] + extension) ==> extension_of(s) is None,
{
    text::lemma_last_index(stem, extension, '.');
    text::lemma_last_index(Seq::empty(), extension, '.');
    assert((stem + seq!['.'] + extension).skip(stem.len() as int + 1) =~= extension);
    assert(Seq::<char>::empty() + seq!['.'] + extension =~= seq!['.'] + extension);
}

/// A path lies within another where its names begin with all of the other's; that one
/// text begins with the other is not enough.
pub proof fn paths_lie_within_their_directories(a: Seq<Seq<char>>, b: Seq<Seq<char>>)
    requires
        are_names(a),
        are_names(b),
    ensures
        within_path(text::joined(b, seq!['/']), text::joined(a, seq!['/'])) <==> a.len() <= b.len()
            && b.take(a.len() as int) == a,
{
    plain_paths_are_normal(a);
    plain_paths_are_normal(b);
    assert(root_of(text::joined(a, seq!['/'])) =~= Seq::empty());
    assert(root_of(text::joined(b, seq!['/'])) =~= Seq::empty());
}

/// Names joined by `/` lead down.
pub proof fn lemma_names_are_tidy(parts: Seq<Seq<char>>)
    requires
        are_names(parts),
    ensures
        is_tidy(text::joined(parts, seq!['/'])),
{
    let d = text::joined(parts, seq!['/']);
    plain_paths_are_normal(parts);
    normalizing_yields_a_normal_form(d);
    lemma_segments_of_normal(d);
    assert(is_segment(parts[0]));
    assert(d != here()) by {
        if d == here() {
            assert(segments_of(d)[0] == here());
        }
    }
    assert(!parts.contains(up())) by {
        if parts.contains(up()) {
            let i = choose|i: int| 0 <= i < parts.len() && parts[i] == up();
            assert(is_segment(parts[i]) && parts[i] != up());
        }
    }
}

proof fn lemma_below_is_within(base: Seq<char>, other: Seq<char>)
    requires
        is_tidy(base),
        is_tidy(other),
    ensures
        within_path(base + seq!['/'] + other, base),
{
    let t = base + seq!['/'] + other;
    lemma_joined_tidy(base, other);
    normalizing_yields_a_normal_form(t);
    normalizing_yields_a_normal_form(base);
    lemma_segments_of_normal(t);
    lemma_segments_of_normal(base);
    lemma_tidy(t);
    lemma_tidy(base);
    lemma_pieces_concat(base, other);
    assert(root_of(t) =~= Seq::empty());
    assert(root_of(base) =~= Seq::empty());
    assert(segments_of(t).take(segments_of(base).len() as int) =~= segments_of(base));
}

/// A relative path that does not climb leads to something below where it starts.
pub proof fn lemma_lies_below(parts: Seq<Seq<char>>, raw: Seq<char>)
    requires
        are_names(parts),
        normal(raw) != here(),
        root_len(normal(raw)) == 0,
        !segments_of(normal(raw)).contains(up()),
    ensures
        ({
            let d = text::joined(parts, seq!['/']);
            let p = normal(raw);
            joined_path(d, p) == d + seq!['/'] + p && within_path(joined_path(d, p), d)
        }),
{
    let d = text::joined(parts, seq!['/']);
    let p = normal(raw);
    lemma_names_are_tidy(parts);
    normalizing_is_idempotent(raw);
    normalizing_yields_a_normal_form(raw);
    lemma_segments_of_normal(p);
    lemma_joined_tidy(d, p);
    lemma_below_is_within(d, p);
}

} // verus!
