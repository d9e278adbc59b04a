//! npm-flavored semantic versioning.
//!
//! npm's dialect differs from the one most Rust tools speak: it knows `||`,
//! hyphen ranges and detached operators, and it has its own rule for
//! prereleases.
//!
//! - Build metadata is ignored when ordering; prereleases order *below* their
//!   release, and an absent prerelease is greater than any present one.
//! - A prerelease version satisfies a comparator set only if some comparator in
//!   that same set names a prerelease at the identical `major.minor.patch`.
//!   `>=1.0.0` therefore does not match `2.0.0-beta.1`, which is what stops
//!   every range from silently picking up alphas.

use vstd::prelude::*;
use std::cmp::Ordering;
use crate::order::{Order, Rank, Ranked};
use crate::{order, text};

verus! {

/// Why a version or a range was rejected: the text as it was given.
#[derive(PartialEq, Eq, Debug)]
pub enum SemverError {
    Version(String),
    Range(String),
}

impl SemverError {
    /// The message shown to the user.
    pub fn to_string(&self) -> (r: String)
        ensures
            r@ == match self {
                SemverError::Version(given) => text::quoted(given@) + " is not a valid version"@,
                SemverError::Range(given) => text::quoted(given@)
                    + " is not a valid version range"@,
            },
    {
        match self {
            SemverError::Version(given) => text::concat(
                text::quote(given.as_str()),
                " is not a valid version",
            ),
            SemverError::Range(given) => text::concat(
                text::quote(given.as_str()),
                " is not a valid version range",
            ),
        }
    }
}

// ---------------------------------------------------------------------------
// Versions.

/// One dot-separated part of a prerelease.
#[derive(PartialEq, Eq, Hash, Debug)]
pub enum Identifier {
    Numeric(u64),
    Alphanumeric(String),
}

/// What an `Identifier` stands for.
#[verifier::ext_equal]
pub enum IdentifierModel {
    Numeric(u64),
    Alphanumeric(Seq<char>),
}

impl View for Identifier {
    type V = IdentifierModel;

    open spec fn view(&self) -> IdentifierModel {
        match self {
            Identifier::Numeric(value) => IdentifierModel::Numeric(*value),
            Identifier::Alphanumeric(value) => IdentifierModel::Alphanumeric(value@),
        }
    }
}

impl Clone for Identifier {
    fn clone(&self) -> (r: Self)
        ensures
            r@ == self@,
    {
        match self {
            Identifier::Numeric(value) => Identifier::Numeric(*value),
            Identifier::Alphanumeric(value) => Identifier::Alphanumeric(value.clone()),
        }
    }
}

/// A version, as parsed.
#[derive(PartialEq, Eq, Hash, Debug)]
pub struct Version {
    pub major: u64,
    pub minor: u64,
    pub patch: u64,
    pub prerelease: Vec<Identifier>,
    pub build: Option<String>,
}

/// What a `Version` stands for.
#[verifier::ext_equal]
pub struct VersionModel {
    pub major: u64,
    pub minor: u64,
    pub patch: u64,
    pub prerelease: Seq<IdentifierModel>,
    pub build: Option<Seq<char>>,
}

impl View for Version {
    type V = VersionModel;

    open spec fn view(&self) -> VersionModel {
        VersionModel {
            major: self.major,
            minor: self.minor,
            patch: self.patch,
            prerelease: identifiers(self.prerelease@),
            build: text::view_of(self.build),
        }
    }
}

/// The identifiers that a list of them stands for.
pub open spec fn identifiers(list: Seq<Identifier>) -> Seq<IdentifierModel> {
    list.map_values(|i: Identifier| i@)
}

fn copy_identifiers(list: &Vec<Identifier>) -> (out: Vec<Identifier>)
    ensures
        identifiers(out@) == identifiers(list@),
{
    let mut out: Vec<Identifier> = Vec::new();
    let mut i: usize = 0;
    while i < list.len()
        invariant
            i <= list@.len(),
            identifiers(out@) == identifiers(list@).take(i as int),
        decreases list@.len() - i,
    {
        let ghost done = out@;
        let copy = list[i].clone();
        out.push(copy);
        assert(identifiers(out@) =~= identifiers(done).push(copy@));
        assert(identifiers(list@).take(i + 1) =~= identifiers(list@).take(i as int).push(copy@));
        i += 1;
    }
    assert(identifiers(list@).take(i as int) =~= identifiers(list@));
    out
}

fn copy_text(given: &Option<String>) -> (out: Option<String>)
    ensures
        text::view_of(out) == text::view_of(*given),
{
    match given {
        Some(given) => Some(given.clone()),
        None => None,
    }
}

impl Clone for Version {
    fn clone(&self) -> (r: Self)
        ensures
            r@ == self@,
    {
        Version {
            major: self.major,
            minor: self.minor,
            patch: self.patch,
            prerelease: copy_identifiers(&self.prerelease),
            build: copy_text(&self.build),
        }
    }
}

// Order.

/// Numeric identifiers always have lower precedence than alphanumeric ones.
pub open spec fn identifier_rank(i: IdentifierModel) -> Seq<int> {
    match i {
        IdentifierModel::Numeric(value) => seq![1int, value as int],
        IdentifierModel::Alphanumeric(value) => seq![2int] + order::closed_text(value),
    }
}

/// The identifiers of a prerelease, from the left.
pub open spec fn prerelease_rank(list: Seq<IdentifierModel>) -> Seq<int>
    decreases list.len(),
{
    if list.len() == 0 {
        Seq::empty()
    } else {
        identifier_rank(list[0]) + prerelease_rank(list.skip(1))
    }
}

/// The numbers, then a release above its prereleases, then the prerelease.
/// Build metadata is not part of precedence.
pub open spec fn version_rank(v: VersionModel) -> Seq<int> {
    seq![v.major as int, v.minor as int, v.patch as int] + if v.prerelease.len() == 0 {
        seq![1int]
    } else {
        seq![0int] + prerelease_rank(v.prerelease)
    }
}

impl Rank for IdentifierModel {
    open spec fn rank(self) -> Seq<int> {
        identifier_rank(self)
    }
}

impl Rank for VersionModel {
    open spec fn rank(self) -> Seq<int> {
        version_rank(self)
    }
}

/// Whether one identifier orders before another.
pub open spec fn identifier_before(a: IdentifierModel, b: IdentifierModel) -> bool {
    match (a, b) {
        (IdentifierModel::Numeric(x), IdentifierModel::Numeric(y)) => x < y,
        (IdentifierModel::Alphanumeric(x), IdentifierModel::Alphanumeric(y)) => order::precedes(
            order::text_rank(x),
            order::text_rank(y),
        ),
        (IdentifierModel::Numeric(_), IdentifierModel::Alphanumeric(_)) => true,
        (IdentifierModel::Alphanumeric(_), IdentifierModel::Numeric(_)) => false,
    }
}

/// Lists of identifiers order by their first difference; a longer list comes
/// after its own beginning.
pub open spec fn identifiers_before(a: Seq<IdentifierModel>, b: Seq<IdentifierModel>) -> bool
    decreases a.len(),
{
    if b.len() == 0 {
        false
    } else if a.len() == 0 {
        true
    } else if a[0] != b[0] {
        identifier_before(a[0], b[0])
    } else {
        identifiers_before(a.skip(1), b.skip(1))
    }
}

/// Precedence of versions, part by part.
pub open spec fn version_before(a: VersionModel, b: VersionModel) -> bool {
    if a.major != b.major {
        a.major < b.major
    } else if a.minor != b.minor {
        a.minor < b.minor
    } else if a.patch != b.patch {
        a.patch < b.patch
    } else if a.prerelease.len() == 0 || b.prerelease.len() == 0 {
        a.prerelease.len() != 0 && b.prerelease.len() == 0
    } else {
        identifiers_before(a.prerelease, b.prerelease)
    }
}

/// The part of a version that the order looks at.
pub open spec fn same_precedence(a: VersionModel, b: VersionModel) -> bool {
    a.major == b.major && a.minor == b.minor && a.patch == b.patch && a.prerelease == b.prerelease
}

proof fn lemma_identifier_step(
    a: IdentifierModel,
    b: IdentifierModel,
    x: Seq<int>,
    y: Seq<int>,
)
    ensures
        order::precedes(identifier_rank(a) + x, identifier_rank(b) + y) <==> identifier_before(a, b)
            || (a == b && order::precedes(x, y)),
        identifier_rank(a) + x == identifier_rank(b) + y <==> a == b && x == y,
{
    reveal_with_fuel(order::precedes, 3);
    let p = identifier_rank(a) + x;
    let q = identifier_rank(b) + y;
    match (a, b) {
        (IdentifierModel::Numeric(m), IdentifierModel::Numeric(n)) => {
            assert(p.skip(1).skip(1) =~= x);
            assert(q.skip(1).skip(1) =~= y);
            assert(p[0] == 1 && q[0] == 1);
            assert(p.skip(1)[0] == m as int && q.skip(1)[0] == n as int);
            assert(p[1] == m as int && q[1] == n as int);
            assert(a == b ==> p =~= seq![1int, m as int] + x);
            assert(a == b ==> q =~= seq![1int, m as int] + y);
        },
        (IdentifierModel::Alphanumeric(s), IdentifierModel::Alphanumeric(t)) => {
            assert(p[0] == 2 && q[0] == 2);
            assert(p.skip(1) =~= order::closed_text(s) + x);
            assert(q.skip(1) =~= order::closed_text(t) + y);
            order::lemma_closed_text(s, t, x, y);
            assert(p =~= seq![2int] + p.skip(1));
            assert(q =~= seq![2int] + q.skip(1));
            order::lemma_text_rank_injective(s, t);
            order::lemma_order_unique(order::text_rank(s), order::text_rank(t));
        },
        (IdentifierModel::Numeric(_), IdentifierModel::Alphanumeric(_)) => {
            assert(p[0] == 1 && q[0] == 2);
        },
        (IdentifierModel::Alphanumeric(_), IdentifierModel::Numeric(_)) => {
            assert(p[0] == 2 && q[0] == 1);
        },
    }
}

proof fn lemma_identifier_before_distinct(a: IdentifierModel, b: IdentifierModel)
    ensures
        identifier_before(a, b) ==> a != b && !identifier_before(b, a),
        a != b && !identifier_before(a, b) ==> identifier_before(b, a),
{
    match (a, b) {
        (IdentifierModel::Alphanumeric(s), IdentifierModel::Alphanumeric(t)) => {
            order::lemma_text_rank_injective(s, t);
            order::lemma_order_unique(order::text_rank(s), order::text_rank(t));
        },
        _ => {},
    }
}

proof fn lemma_prerelease_rank(a: Seq<IdentifierModel>, b: Seq<IdentifierModel>)
    ensures
        order::precedes(prerelease_rank(a), prerelease_rank(b)) <==> identifiers_before(a, b),
        prerelease_rank(a) == prerelease_rank(b) <==> a == b,
    decreases a.len(),
{
    if a.len() > 0 && b.len() > 0 {
        lemma_identifier_step(
            a[0],
            b[0],
            prerelease_rank(a.skip(1)),
            prerelease_rank(b.skip(1)),
        );
        lemma_identifier_before_distinct(a[0], b[0]);
        lemma_prerelease_rank(a.skip(1), b.skip(1));
        assert(a =~= seq![a[0]] + a.skip(1));
        assert(b =~= seq![b[0]] + b.skip(1));
        assert(a[0] == b[0] ==> (a == b <==> a.skip(1) == b.skip(1)));
    } else if a.len() > 0 {
        assert(identifier_rank(a[0]).len() > 0);
    } else if b.len() > 0 {
        assert(identifier_rank(b[0]).len() > 0);
    } else {
        assert(a =~= b);
    }
}

/// The order of versions is precedence: numbers first, a release above its
/// prereleases, prerelease identifiers from the left. Build metadata does not
/// count, and versions that differ in anything else are ordered.
pub proof fn version_order_is_precedence(a: VersionModel, b: VersionModel)
    ensures
        order::precedes(a.rank(), b.rank()) <==> version_before(a, b),
        a.rank() == b.rank() <==> same_precedence(a, b),
{
    reveal_with_fuel(order::precedes, 5);
    let p = a.rank();
    let q = b.rank();
    assert(p[0] == a.major && q[0] == b.major);
    assert(p[1] == a.minor && q[1] == b.minor);
    assert(p[2] == a.patch && q[2] == b.patch);
    let p1 = p.skip(1);
    let q1 = q.skip(1);
    assert(p1[0] == a.minor && q1[0] == b.minor);
    let p2 = p1.skip(1);
    let q2 = q1.skip(1);
    assert(p2[0] == a.patch && q2[0] == b.patch);
    let p3 = p2.skip(1);
    let q3 = q2.skip(1);
    assert(p3 =~= p.skip(3));
    assert(q3 =~= q.skip(3));
    assert(p =~= seq![p[0], p[1], p[2]] + p3);
    assert(q =~= seq![q[0], q[1], q[2]] + q3);
    lemma_prerelease_rank(a.prerelease, b.prerelease);
    if a.prerelease.len() == 0 {
        assert(p3 =~= seq![1int]);
    } else {
        assert(p3 =~= seq![0int] + prerelease_rank(a.prerelease));
        assert(p3.skip(1) =~= prerelease_rank(a.prerelease));
    }
    if b.prerelease.len() == 0 {
        assert(q3 =~= seq![1int]);
    } else {
        assert(q3 =~= seq![0int] + prerelease_rank(b.prerelease));
        assert(q3.skip(1) =~= prerelease_rank(b.prerelease));
    }
    assert(p3[0] == if a.prerelease.len() == 0 {
        1int
    } else {
        0int
    });
    assert(q3[0] == if b.prerelease.len() == 0 {
        1int
    } else {
        0int
    });
    assert(a.prerelease.len() == 0 && b.prerelease.len() == 0 ==> a.prerelease =~= b.prerelease);
}

/// Precedence is a total order on what it looks at.
pub proof fn version_order_is_total(a: VersionModel, b: VersionModel, c: VersionModel)
    ensures
        !version_before(a, a),
        version_before(a, b) ==> !version_before(b, a),
        version_before(a, b) && version_before(b, c) ==> version_before(a, c),
        version_before(a, b) || version_before(b, a) || same_precedence(a, b),
{
    version_order_is_precedence(a, a);
    version_order_is_precedence(a, b);
    version_order_is_precedence(b, a);
    version_order_is_precedence(b, c);
    version_order_is_precedence(a, c);
    order::lemma_irreflexive(a.rank());
    order::lemma_order_unique(a.rank(), b.rank());
    if version_before(a, b) && version_before(b, c) {
        order::lemma_transitive(a.rank(), b.rank(), c.rank());
    }
}

fn compare_numbers(a: u64, b: u64) -> (r: Order)
    ensures
        r is Less <==> a < b,
        r is Equal <==> a == b,
{
    if a < b {
        Order::Less
    } else if a == b {
        Order::Equal
    } else {
        Order::Greater
    }
}

impl Ranked for Identifier {
    fn compare(&self, other: &Self) -> (r: Order)
        ensures
            r is Less <==> identifier_before(self@, other@),
            r is Equal <==> self@ == other@,
    {
        proof {
            let none = Seq::<int>::empty();
            lemma_identifier_step(self@, other@, none, none);
            lemma_identifier_step(other@, self@, none, none);
            lemma_identifier_before_distinct(self@, other@);
            assert(identifier_rank(self@) + none =~= identifier_rank(self@));
            assert(identifier_rank(other@) + none =~= identifier_rank(other@));
        }
        match (self, other) {
            (Identifier::Numeric(left), Identifier::Numeric(right)) => compare_numbers(
                *left,
                *right,
            ),
            (Identifier::Alphanumeric(left), Identifier::Alphanumeric(right)) => {
                proof {
                    order::lemma_order_unique(
                        order::text_rank(left@),
                        order::text_rank(right@),
                    );
                }
                order::compare_text(left.as_str(), right.as_str())
            },
            (Identifier::Numeric(_), Identifier::Alphanumeric(_)) => Order::Less,
            (Identifier::Alphanumeric(_), Identifier::Numeric(_)) => Order::Greater,
        }
    }
}

impl Identifier {
    /// The text of one identifier.
    pub fn to_string(&self) -> (r: String)
        ensures
            r@ == identifier_text(self@),
    {
        match self {
            Identifier::Numeric(value) => text::string_of(&text::render_decimal(*value)),
            Identifier::Alphanumeric(value) => value.clone(),
        }
    }
}

/// Compares two prereleases identifier by identifier.
fn compare_prereleases(a: &Vec<Identifier>, b: &Vec<Identifier>) -> (r: Order)
    ensures
        r is Less <==> identifiers_before(identifiers(a@), identifiers(b@)),
        r is Equal <==> identifiers(a@) == identifiers(b@),
{
    let ghost x = identifiers(a@);
    let ghost y = identifiers(b@);
    let mut i: usize = 0;
    assert(x.skip(0) =~= x);
    assert(y.skip(0) =~= y);
    while i < a.len() && i < b.len()
        invariant
            i <= a@.len(),
            i <= b@.len(),
            x == identifiers(a@),
            y == identifiers(b@),
            identifiers_before(x, y) == identifiers_before(x.skip(i as int), y.skip(i as int)),
            forall|j: int| 0 <= j < i ==> x[j] == y[j],
        decreases a@.len() - i,
    {
        let found = a[i].compare(&b[i]);
        assert(x.skip(i as int)[0] == a@[i as int]@);
        assert(y.skip(i as int)[0] == b@[i as int]@);
        if found != Order::Equal {
            assert(x[i as int] != y[i as int]);
            return found;
        }
        assert(x.skip(i as int).skip(1) =~= x.skip(i + 1));
        assert(y.skip(i as int).skip(1) =~= y.skip(i + 1));
        i += 1;
    }
    if a.len() < b.len() {
        Order::Less
    } else if b.len() < a.len() {
        Order::Greater
    } else {
        assert(x =~= y);
        Order::Equal
    }
}

impl Ranked for Version {
    fn compare(&self, other: &Self) -> (r: Order)
        ensures
            r is Less <==> version_before(self@, other@),
            r is Equal <==> same_precedence(self@, other@),
    {
        proof {
            version_order_is_precedence(self@, other@);
            version_order_is_precedence(other@, self@);
            order::lemma_order_unique(self@.rank(), other@.rank());
            assert(self.prerelease@.len() == 0 <==> self@.prerelease.len() == 0);
            assert(other.prerelease@.len() == 0 <==> other@.prerelease.len() == 0);
            if self.prerelease@.len() == 0 && other.prerelease@.len() == 0 {
                assert(self@.prerelease =~= other@.prerelease);
            }
        }
        let major = compare_numbers(self.major, other.major);
        if major != Order::Equal {
            return major;
        }
        let minor = compare_numbers(self.minor, other.minor);
        if minor != Order::Equal {
            return minor;
        }
        let patch = compare_numbers(self.patch, other.patch);
        if patch != Order::Equal {
            return patch;
        }
        if self.prerelease.len() == 0 {
            if other.prerelease.len() == 0 {
                Order::Equal
            } else {
                Order::Greater
            }
        } else if other.prerelease.len() == 0 {
            Order::Less
        } else {
            compare_prereleases(&self.prerelease, &other.prerelease)
        }
    }
}

impl PartialOrd for Version {
    fn partial_cmp(&self, other: &Self) -> (r: Option<Ordering>) {
        proof {
            order::lemma_order_unique(self@.rank(), other@.rank());
        }
        match self.compare(other) {
            Order::Less => Some(Ordering::Less),
            Order::Equal => Some(Ordering::Equal),
            Order::Greater => Some(Ordering::Greater),
        }
    }
}

impl vstd::std_specs::cmp::PartialOrdSpecImpl for Version {
    open spec fn obeys_partial_cmp_spec() -> bool {
        true
    }

    open spec fn partial_cmp_spec(&self, other: &Self) -> Option<Ordering> {
        if order::precedes(self@.rank(), other@.rank()) {
            Some(Ordering::Less)
        } else if self@.rank() == other@.rank() {
            Some(Ordering::Equal)
        } else {
            Some(Ordering::Greater)
        }
    }
}

// Text.

/// The text of one identifier.
pub open spec fn identifier_text(i: IdentifierModel) -> Seq<char> {
    match i {
        IdentifierModel::Numeric(value) => text::decimal(value as nat),
        IdentifierModel::Alphanumeric(value) => value,
    }
}

/// Identifiers with dots between them.
pub open spec fn prerelease_text(list: Seq<IdentifierModel>) -> Seq<char> {
    text::joined(list.map_values(|i: IdentifierModel| identifier_text(i)), seq!['.'])
}

/// The three numbers of a version.
pub open spec fn core_text(v: VersionModel) -> Seq<char> {
    text::decimal(v.major as nat) + seq!['.'] + text::decimal(v.minor as nat) + seq!['.']
        + text::decimal(v.patch as nat)
}

/// A version as it is written: numbers, prerelease, build metadata.
pub open spec fn version_text(v: VersionModel) -> Seq<char> {
    core_text(v) + if v.prerelease.len() == 0 {
        Seq::empty()
    } else {
        seq!['-'] + prerelease_text(v.prerelease)
    } + match v.build {
        Some(build) => seq!['+'] + build,
        None => Seq::empty(),
    }
}

/// A number without leading zeros: `01` and `1` would be two spellings.
pub open spec fn number_of(s: Seq<char>) -> Option<u64> {
    if s.len() == 0 || (s.len() > 1 && s[0] == '0') {
        None
    } else {
        match text::unsigned_value(s, u64::MAX as nat) {
            Some(value) => Some(value as u64),
            None => None,
        }
    }
}

/// ASCII letters, digits and the hyphen.
pub open spec fn is_identifier_char(c: char) -> bool {
    ||| text::is_digit(c)
    ||| 'a' <= c && c <= 'z'
    ||| 'A' <= c && c <= 'Z'
    ||| c == '-'
}

/// One identifier of a prerelease.
pub open spec fn identifier_of(s: Seq<char>) -> Option<IdentifierModel> {
    if s.len() == 0 || !(forall|i: int| 0 <= i < s.len() ==> is_identifier_char(#[trigger] s[i])) {
        None
    } else if text::all_digits(s) {
        match number_of(s) {
            Some(value) => Some(IdentifierModel::Numeric(value)),
            None => None,
        }
    } else {
        Some(IdentifierModel::Alphanumeric(s))
    }
}

/// Every part read as an identifier.
pub open spec fn identifiers_in(parts: Seq<Seq<char>>) -> Option<Seq<IdentifierModel>>
    decreases parts.len(),
{
    if parts.len() == 0 {
        Some(Seq::empty())
    } else {
        match identifier_of(parts[0]) {
            Some(first) => text::prepend(seq![first], identifiers_in(parts.skip(1))),
            None => None,
        }
    }
}

/// A prerelease: identifiers with dots between them.
pub open spec fn prerelease_of(s: Seq<char>) -> Option<Seq<IdentifierModel>> {
    if s.len() == 0 {
        None
    } else {
        identifiers_in(text::pieces(s, '.'))
    }
}

/// What stands before the prerelease, the prerelease, and the build metadata.
pub struct Sections {
    pub numbers: Seq<char>,
    pub prerelease: Seq<IdentifierModel>,
    pub build: Option<Seq<char>>,
}

/// Cuts the prerelease off.
pub open spec fn sections_before_build(core: Seq<char>, build: Option<Seq<char>>) -> Option<
    Sections,
> {
    match text::halves(core, '-') {
        Some((numbers, pre)) => match prerelease_of(pre) {
            Some(prerelease) => Some(Sections { numbers, prerelease, build }),
            None => None,
        },
        None => Some(Sections { numbers: core, prerelease: Seq::empty(), build }),
    }
}

/// Cuts build metadata and prerelease off; an empty build is not allowed.
pub open spec fn sections_of(s: Seq<char>) -> Option<Sections> {
    match text::halves(s, '+') {
        Some((core, build)) => if build.len() > 0 {
            sections_before_build(core, Some(build))
        } else {
            None
        },
        None => sections_before_build(s, None),
    }
}

/// `s` without the `v` and `=` marks in front.
pub open spec fn without_marks(s: Seq<char>) -> Seq<char>
    decreases s.len(),
{
    if s.len() > 0 && (s[0] == 'v' || s[0] == '=') {
        without_marks(s.skip(1))
    } else {
        s
    }
}

/// Three numbers, an optional prerelease and optional build metadata.
pub open spec fn bare_version_of(s: Seq<char>) -> Option<VersionModel> {
    match sections_of(s) {
        Some(sections) => {
            let parts = text::pieces(sections.numbers, '.');
            if parts.len() == 3 && number_of(parts[0]) is Some && number_of(parts[1]) is Some
                && number_of(parts[2]) is Some {
                Some(
                    VersionModel {
                        major: number_of(parts[0])->0,
                        minor: number_of(parts[1])->0,
                        patch: number_of(parts[2])->0,
                        prerelease: sections.prerelease,
                        build: sections.build,
                    },
                )
            } else {
                None
            }
        },
        None => None,
    }
}

/// The version that a text spells. White space around it and marks in front of
/// it do not count.
pub open spec fn version_of(s: Seq<char>) -> Option<VersionModel> {
    bare_version_of(text::trimmed(without_marks(text::trimmed(s))))
}

/// Reads a number without leading zeros.
pub fn parse_number(s: &[char]) -> (r: Option<u64>)
    ensures
        r == number_of(s@),
{
    if s.len() == 0 || (s.len() > 1 && s[0] == '0') {
        return None;
    }
    text::parse_unsigned(s, u64::MAX)
}

fn parse_identifier(s: &[char]) -> (r: Option<Identifier>)
    ensures
        text::view_of(r) == identifier_of(s@),
{
    if s.len() == 0 {
        return None;
    }
    let mut digits = true;
    let mut i: usize = 0;
    while i < s.len()
        invariant
            i <= s@.len(),
            forall|j: int| 0 <= j < i ==> is_identifier_char(#[trigger] s@[j]),
            digits <==> forall|j: int| 0 <= j < i ==> text::is_digit(#[trigger] s@[j]),
        decreases s@.len() - i,
    {
        let c = s[i];
        if '0' <= c && c <= '9' {
        } else if ('a' <= c && c <= 'z') || ('A' <= c && c <= 'Z') || c == '-' {
            digits = false;
            assert(!text::is_digit(s@[i as int]));
        } else {
            assert(!is_identifier_char(s@[i as int]));
            return None;
        }
        i += 1;
    }
    if digits {
        match parse_number(s) {
            Some(value) => Some(Identifier::Numeric(value)),
            None => None,
        }
    } else {
        Some(Identifier::Alphanumeric(text::string_of(s)))
    }
}

/// Reads a prerelease.
pub fn parse_identifiers(s: &[char]) -> (r: Option<Vec<Identifier>>)
    ensures
        r is Some <==> prerelease_of(s@) is Some,
        r matches Some(list) ==> prerelease_of(s@) == Some(identifiers(list@)),
{
    if s.len() == 0 {
        return None;
    }
    let parts = text::split(s, '.');
    let ghost all = text::pieces(s@, '.');
    let mut list: Vec<Identifier> = Vec::new();
    let mut i: usize = 0;
    proof {
        assert(all.skip(0) =~= all);
        assert(identifiers(list@) =~= Seq::empty());
        text::lemma_prepend_nothing(identifiers_in(all));
    }
    while i < parts.len()
        invariant
            i <= parts@.len(),
            text::views(parts@) == all,
            s@.len() > 0,
            all == text::pieces(s@, '.'),
            identifiers_in(all) == text::prepend(
                identifiers(list@),
                identifiers_in(all.skip(i as int)),
            ),
        decreases parts@.len() - i,
    {
        assert(all.skip(i as int)[0] == parts@[i as int]@);
        match parse_identifier(parts[i]) {
            Some(identifier) => {
                let ghost done = identifiers(list@);
                list.push(identifier);
                proof {
                    assert(identifiers(list@) =~= done + seq![identifier@]);
                    assert(all.skip(i as int).skip(1) =~= all.skip(i + 1));
                    text::lemma_prepend(
                        done,
                        seq![identifier@],
                        identifiers_in(all.skip(i + 1)),
                    );
                }
            },
            None => {
                return None;
            },
        }
        i += 1;
    }
    proof {
        assert(all.skip(i as int) =~= Seq::empty());
        assert(identifiers(list@) + Seq::empty() =~= identifiers(list@));
    }
    Some(list)
}

fn cut_prerelease<'a>(core: &'a [char]) -> (r: Option<(&'a [char], Vec<Identifier>)>)
    ensures
        forall|build: Option<Seq<char>>|
            match r {
                Some((numbers, list)) => #[trigger] sections_before_build(core@, build) == Some(
                    Sections { numbers: numbers@, prerelease: identifiers(list@), build },
                ),
                None => sections_before_build(core@, build) is None,
            },
{
    match text::split_once(core, '-') {
        Some((numbers, pre)) => match parse_identifiers(pre) {
            Some(list) => Some((numbers, list)),
            None => None,
        },
        None => {
            let list: Vec<Identifier> = Vec::new();
            assert(identifiers(list@) =~= Seq::empty());
            Some((core, list))
        },
    }
}

/// Cuts a version or partial version into its sections.
fn cut_sections<'a>(s: &'a [char]) -> (r: Option<(&'a [char], Vec<Identifier>, Option<String>)>)
    ensures
        match r {
            Some((numbers, list, build)) => sections_of(s@) == Some(
                Sections {
                    numbers: numbers@,
                    prerelease: identifiers(list@),
                    build: text::view_of(build),
                },
            ),
            None => sections_of(s@) is None,
        },
{
    match text::split_once(s, '+') {
        Some((core, build)) => {
            if build.len() == 0 {
                return None;
            }
            match cut_prerelease(core) {
                Some((numbers, list)) => {
                    assert(sections_before_build(core@, Some(build@)) is Some);
                    Some((numbers, list, Some(text::string_of(build))))
                },
                None => {
                    assert(sections_before_build(core@, Some(build@)) is None);
                    None
                },
            }
        },
        None => match cut_prerelease(s) {
            Some((numbers, list)) => {
                assert(sections_before_build(s@, None) is Some);
                Some((numbers, list, None))
            },
            None => {
                assert(sections_before_build(s@, None) is None);
                None
            },
        },
    }
}

fn skip_marks<'a>(s: &'a [char]) -> (r: &'a [char])
    ensures
        r@ == without_marks(s@),
{
    let mut at: usize = 0;
    assert(s@.skip(0) =~= s@);
    while at < s.len() && (s[at] == 'v' || s[at] == '=')
        invariant
            at <= s@.len(),
            without_marks(s@) == without_marks(s@.skip(at as int)),
        decreases s@.len() - at,
    {
        assert(s@.skip(at as int).skip(1) =~= s@.skip(at + 1));
        at += 1;
    }
    text::after(s, at)
}

fn parse_bare(s: &[char]) -> (r: Option<Version>)
    ensures
        text::view_of(r) == bare_version_of(s@),
{
    match cut_sections(s) {
        Some((numbers, prerelease, build)) => {
            let parts = text::split(numbers, '.');
            let ghost all = text::pieces(numbers@, '.');
            assert(text::views(parts@).len() == parts@.len());
            if parts.len() != 3 {
                return None;
            }
            assert(all[0] == parts@[0]@ && all[1] == parts@[1]@ && all[2] == parts@[2]@);
            match (parse_number(parts[0]), parse_number(parts[1]), parse_number(parts[2])) {
                (Some(major), Some(minor), Some(patch)) => Some(
                    Version { major, minor, patch, prerelease, build },
                ),
                _ => None,
            }
        },
        None => None,
    }
}

impl Version {
    /// A release with the given numbers.
    pub fn new(major: u64, minor: u64, patch: u64) -> (r: Self)
        ensures
            r@ == release(major, minor, patch),
    {
        let r = Version { major, minor, patch, prerelease: Vec::new(), build: None };
        assert(r@.prerelease =~= Seq::empty());
        r
    }

    /// Parses a version. White space around it and `v` or `=` in front of it are
    /// tolerated.
    pub fn parse(text: &str) -> (r: Result<Self, SemverError>)
        ensures
            match r {
                Ok(version) => version_of(text@) == Some(version@),
                Err(SemverError::Version(given)) => version_of(text@) is None && given@ == text@,
                Err(SemverError::Range(_)) => false,
            },
    {
        let chars = text::chars_of(text);
        let bare = text::trim(skip_marks(text::trim(&chars)));
        match parse_bare(bare) {
            Some(version) => Ok(version),
            None => Err(SemverError::Version(text.to_string())),
        }
    }

    /// Whether the version is a prerelease.
    pub fn is_prerelease(&self) -> (r: bool)
        ensures
            r == (self@.prerelease.len() > 0),
    {
        assert(self@.prerelease.len() == self.prerelease@.len());
        self.prerelease.len() != 0
    }

    /// The version as it is written.
    pub fn to_string(&self) -> (r: String)
        ensures
            r@ == version_text(self@),
    {
        text::string_of(&self.render())
    }

    /// The characters of the version as it is written.
    pub fn render(&self) -> (out: Vec<char>)
        ensures
            out@ == version_text(self@),
    {
        let mut out: Vec<char> = text::render_decimal(self.major);
        out.push('.');
        text::append(&mut out, &text::render_decimal(self.minor));
        out.push('.');
        text::append(&mut out, &text::render_decimal(self.patch));
        assert(out@ =~= core_text(self@));
        assert(self@.prerelease.len() == self.prerelease@.len());
        let ghost ids = self@.prerelease.map_values(|i: IdentifierModel| identifier_text(i));
        if self.prerelease.len() != 0 {
            out.push('-');
            let ghost head = core_text(self@) + seq!['-'];
            assert(out@ =~= head + text::joined(ids.take(0), seq!['.']));
            let mut i: usize = 0;
            while i < self.prerelease.len()
                invariant
                    i <= self.prerelease@.len(),
                    ids.len() == self.prerelease@.len(),
                    forall|j: int|
                        0 <= j < ids.len() ==> #[trigger] ids[j] == identifier_text(
                            self.prerelease@[j]@,
                        ),
                    out@ == head + text::joined(ids.take(i as int), seq!['.']),
                decreases self.prerelease@.len() - i,
            {
                if i > 0 {
                    out.push('.');
                }
                let one = self.prerelease[i].to_string();
                text::append_str(&mut out, one.as_str());
                proof {
                    let next = ids.take(i + 1);
                    assert(next.drop_last() =~= ids.take(i as int));
                    assert(next.last() == one@);
                    assert(out@ =~= head + text::joined(next, seq!['.']));
                }
                i += 1;
            }
            assert(ids.take(i as int) =~= ids);
            assert(out@ =~= core_text(self@) + (seq!['-'] + prerelease_text(self@.prerelease)));
        } else {
            assert(out@ =~= core_text(self@) + Seq::empty());
        }
        let ghost head = out@;
        match &self.build {
            Some(build) => {
                out.push('+');
                text::append_str(&mut out, build.as_str());
                assert(out@ =~= head + (seq!['+'] + build@));
            },
            None => {
                assert(out@ =~= head + Seq::empty());
            },
        }
        out
    }
}

/// A release: a version without prerelease and build metadata.
pub open spec fn release(major: u64, minor: u64, patch: u64) -> VersionModel {
    VersionModel { major, minor, patch, prerelease: Seq::empty(), build: None }
}

// Reading back what was written.

/// An identifier that a text can spell.
pub open spec fn identifier_spellable(i: IdentifierModel) -> bool {
    match i {
        IdentifierModel::Numeric(_) => true,
        IdentifierModel::Alphanumeric(s) => identifier_of(s) == Some(i),
    }
}

/// A version that a text can spell: every version that `Version::parse` returns
/// is one.
pub open spec fn version_spellable(v: VersionModel) -> bool {
    &&& forall|i: int|
        0 <= i < v.prerelease.len() ==> identifier_spellable(#[trigger] v.prerelease[i])
    &&& v.build matches Some(build) ==> build.len() > 0 && !text::is_space(build.last())
}

pub proof fn lemma_number_reads_back(n: u64)
    ensures
        number_of(text::decimal(n as nat)) == Some(n),
        text::all_digits(text::decimal(n as nat)),
        text::decimal(n as nat).len() > 0,
{
    text::lemma_decimal(n as nat);
    text::lemma_decimal_reads_back(n as nat, u64::MAX as nat);
}

proof fn lemma_identifier_reads_back(i: IdentifierModel)
    requires
        identifier_spellable(i),
    ensures
        identifier_of(identifier_text(i)) == Some(i),
        identifier_text(i).len() > 0,
        forall|j: int|
            0 <= j < identifier_text(i).len() ==> is_identifier_char(
                #[trigger] identifier_text(i)[j],
            ),
{
    match i {
        IdentifierModel::Numeric(n) => {
            lemma_number_reads_back(n);
            let s = identifier_text(i);
            assert forall|j: int| 0 <= j < s.len() implies is_identifier_char(#[trigger] s[j]) by {
                assert(text::is_digit(s[j]));
            }
        },
        IdentifierModel::Alphanumeric(s) => {},
    }
}

/// The texts of the identifiers of a prerelease.
pub open spec fn identifier_texts(list: Seq<IdentifierModel>) -> Seq<Seq<char>> {
    list.map_values(|i: IdentifierModel| identifier_text(i))
}

proof fn lemma_identifiers_read_back(list: Seq<IdentifierModel>)
    requires
        forall|i: int| 0 <= i < list.len() ==> identifier_spellable(#[trigger] list[i]),
    ensures
        identifiers_in(identifier_texts(list)) == Some(list),
    decreases list.len(),
{
    let parts = identifier_texts(list);
    if list.len() == 0 {
        assert(parts.len() == 0);
        assert(list =~= Seq::empty());
    } else {
        lemma_identifier_reads_back(list[0]);
        let rest = list.skip(1);
        assert forall|i: int| 0 <= i < rest.len() implies identifier_spellable(
            #[trigger] rest[i],
        ) by {
            assert(rest[i] == list[i + 1]);
        }
        lemma_identifiers_read_back(rest);
        assert(parts.skip(1) =~= identifier_texts(rest));
        assert(parts[0] == identifier_text(list[0]));
        assert(list =~= seq![list[0]] + rest);
    }
}

/// Text of a prerelease: what it is made of, and that it reads back.
pub proof fn lemma_prerelease_reads_back(list: Seq<IdentifierModel>)
    requires
        list.len() > 0,
        forall|i: int| 0 <= i < list.len() ==> identifier_spellable(#[trigger] list[i]),
    ensures
        prerelease_of(prerelease_text(list)) == Some(list),
        prerelease_text(list).len() > 0,
        forall|j: int|
            0 <= j < prerelease_text(list).len() ==> is_identifier_char(
                #[trigger] prerelease_text(list)[j],
            ) || prerelease_text(list)[j] == '.',
{
    let parts = identifier_texts(list);
    let s = prerelease_text(list);
    assert(parts.len() == list.len());
    assert(s == text::joined(parts, seq!['.']));
    assert forall|i: int| 0 <= i < parts.len() implies !(#[trigger] parts[i]).contains('.') by {
        lemma_identifier_reads_back(list[i]);
        assert(parts[i] == identifier_text(list[i]));
        if parts[i].contains('.') {
            let k = choose|k: int| 0 <= k < parts[i].len() && parts[i][k] == '.';
            assert(is_identifier_char(parts[i][k]));
        }
    }
    text::lemma_pieces_joined(parts, '.');
    lemma_identifiers_read_back(list);
    lemma_identifier_reads_back(list[0]);
    assert(parts[0] == identifier_text(list[0]));
    if parts.len() > 1 {
        text::lemma_joined_front(parts, seq!['.']);
    }
    assert forall|j: int| 0 <= j < s.len() implies is_identifier_char(#[trigger] s[j]) || s[j]
        == '.' by {
        assert(s.contains(s[j]));
        text::lemma_joined_contains(parts, seq!['.'], s[j]);
        if seq!['.'].contains(s[j]) {
            assert(s[j] == '.');
        } else {
            let i = choose|i: int| 0 <= i < parts.len() && (#[trigger] parts[i]).contains(s[j]);
            lemma_identifier_reads_back(list[i]);
            assert(parts[i] == identifier_text(list[i]));
            let k = choose|k: int| 0 <= k < parts[i].len() && parts[i][k] == s[j];
            assert(is_identifier_char(parts[i][k]));
        }
    }
}

/// The core of a version: digits and dots, in three pieces.
pub proof fn lemma_core_reads_back(v: VersionModel)
    ensures
        text::pieces(core_text(v), '.') == seq![
            text::decimal(v.major as nat),
            text::decimal(v.minor as nat),
            text::decimal(v.patch as nat),
        ],
        core_text(v).len() > 0,
        forall|j: int|
            0 <= j < core_text(v).len() ==> text::is_digit(#[trigger] core_text(v)[j])
                || core_text(v)[j] == '.',
        text::is_digit(core_text(v)[0]),
{
    let a = text::decimal(v.major as nat);
    let b = text::decimal(v.minor as nat);
    let c = text::decimal(v.patch as nat);
    lemma_number_reads_back(v.major);
    lemma_number_reads_back(v.minor);
    lemma_number_reads_back(v.patch);
    assert(forall|k: int| 0 <= k < a.len() ==> text::is_digit(#[trigger] a[k]));
    assert(forall|k: int| 0 <= k < b.len() ==> text::is_digit(#[trigger] b[k]));
    assert(forall|k: int| 0 <= k < c.len() ==> text::is_digit(#[trigger] c[k]));
    assert(!a.contains('.') && !b.contains('.') && !c.contains('.'));
    let tail = b + seq!['.'] + c;
    assert(core_text(v) =~= a + seq!['.'] + tail);
    text::lemma_pieces_step(a, tail, '.');
    text::lemma_pieces_step(b, c, '.');
    text::lemma_pieces_whole(c, '.');
    assert(seq![a] + (seq![b] + seq![c]) =~= seq![a, b, c]);
    assert(core_text(v)[0] == a[0]);
}

/// Parsing undoes rendering.
pub proof fn version_reads_back(v: VersionModel)
    requires
        version_spellable(v),
    ensures
        version_of(version_text(v)) == Some(v),
        version_text(v).len() > 0,
        text::is_digit(version_text(v)[0]),
{
    lemma_core_reads_back(v);
    lemma_number_reads_back(v.major);
    lemma_number_reads_back(v.minor);
    lemma_number_reads_back(v.patch);
    let numbers = core_text(v);
    let pre = if v.prerelease.len() == 0 {
        Seq::<char>::empty()
    } else {
        seq!['-'] + prerelease_text(v.prerelease)
    };
    let core = numbers + pre;
    let t = version_text(v);
    if v.prerelease.len() > 0 {
        lemma_prerelease_reads_back(v.prerelease);
    }
    let body = prerelease_text(v.prerelease);
    assert(numbers.len() > 0);
    assert(core.len() >= numbers.len());
    assert forall|j: int| 0 <= j < core.len() implies is_identifier_char(#[trigger] core[j])
        || core[j] == '.' by {
        if j < numbers.len() {
            assert(core[j] == numbers[j]);
        } else if j > numbers.len() {
            assert(core[j] == body[j - numbers.len() - 1]);
        }
    }
    assert(!core.contains('+'));
    assert(!numbers.contains('-'));
    if v.prerelease.len() == 0 {
        assert(core =~= numbers);
        text::lemma_halves_none(numbers, '-');
        assert(v.prerelease =~= Seq::empty());
    } else {
        text::lemma_halves(numbers, body, '-');
    }
    match v.build {
        Some(build) => {
            text::lemma_halves(core, build, '+');
            assert(t =~= core + (seq!['+'] + build));
            assert(t.last() == build.last());
        },
        None => {
            assert(t =~= core);
            text::lemma_halves_none(core, '+');
            assert(is_identifier_char(core[core.len() - 1]) || core[core.len() - 1] == '.');
        },
    }
    assert(t[0] == numbers[0]);
    text::lemma_trimmed_same(t);
    assert(without_marks(t) == t);
}

proof fn lemma_identifiers_in_spellable(parts: Seq<Seq<char>>)
    ensures
        identifiers_in(parts) matches Some(list) ==> forall|i: int|
            0 <= i < list.len() ==> identifier_spellable(#[trigger] list[i]),
    decreases parts.len(),
{
    if parts.len() > 0 {
        lemma_identifiers_in_spellable(parts.skip(1));
        if let Some(list) = identifiers_in(parts) {
            let rest = identifiers_in(parts.skip(1))->0;
            assert forall|i: int| 0 <= i < list.len() implies identifier_spellable(
                #[trigger] list[i],
            ) by {
                if i > 0 {
                    assert(list[i] == rest[i - 1]);
                }
            }
        }
    }
}

/// Every version that a text spells can be spelled again.
pub proof fn parsed_version_is_spellable(s: Seq<char>)
    ensures
        version_of(s) matches Some(v) ==> version_spellable(v),
{
    let t = text::trimmed(without_marks(text::trimmed(s)));
    text::lemma_trimmed_ends(without_marks(text::trimmed(s)));
    if let Some(v) = version_of(s) {
        let sections = sections_of(t)->0;
        text::lemma_first_index(t, '+');
        let core = match text::halves(t, '+') {
            Some((core, build)) => {
                assert(build.last() == t.last());
                core
            },
            None => t,
        };
        if let Some((numbers, pre)) = text::halves(core, '-') {
            lemma_identifiers_in_spellable(text::pieces(pre, '.'));
        }
    }
}

// ---------------------------------------------------------------------------
// Comparators.

/// How a version must stand to the one that a comparator names.
#[derive(Clone, Copy, PartialEq, Eq, Debug, Structural)]
pub enum Op {
    Gt,
    Gte,
    Lt,
    Lte,
    Eq,
}

/// One bound of a comparator set.
#[derive(PartialEq, Eq, Debug)]
pub struct Comparator {
    pub op: Op,
    pub version: Version,
}

/// What a `Comparator` stands for.
#[verifier::ext_equal]
pub struct ComparatorModel {
    pub op: Op,
    pub version: VersionModel,
}

impl View for Comparator {
    type V = ComparatorModel;

    open spec fn view(&self) -> ComparatorModel {
        ComparatorModel { op: self.op, version: self.version@ }
    }
}

impl Clone for Comparator {
    fn clone(&self) -> (r: Self)
        ensures
            r@ == self@,
    {
        Comparator { op: self.op, version: self.version.clone() }
    }
}

/// The comparators that a list of them stands for.
pub open spec fn comparators(list: Seq<Comparator>) -> Seq<ComparatorModel> {
    list.map_values(|c: Comparator| c@)
}

/// Whether a version is within one bound.
pub open spec fn within(c: ComparatorModel, v: VersionModel) -> bool {
    match c.op {
        Op::Gt => version_before(c.version, v),
        Op::Gte => !version_before(v, c.version),
        Op::Lt => version_before(v, c.version),
        Op::Lte => !version_before(c.version, v),
        Op::Eq => same_precedence(v, c.version),
    }
}

/// The sign of an operator.
pub open spec fn op_text(op: Op) -> Seq<char> {
    match op {
        Op::Gt => ">"@,
        Op::Gte => ">="@,
        Op::Lt => "<"@,
        Op::Lte => "<="@,
        Op::Eq => "="@,
    }
}

impl Comparator {
    /// Whether a version is within this bound.
    pub fn matches(&self, version: &Version) -> (r: bool)
        ensures
            r == within(self@, version@),
    {
        proof {
            version_order_is_total(version@, self.version@, version@);
        }
        let found = version.compare(&self.version);
        match self.op {
            Op::Gt => found == Order::Greater,
            Op::Gte => found != Order::Less,
            Op::Lt => found == Order::Less,
            Op::Lte => found != Order::Greater,
            Op::Eq => found == Order::Equal,
        }
    }

    /// The comparator as it is written.
    pub fn to_string(&self) -> (r: String)
        ensures
            r@ == op_text(self.op) + version_text(self.version@),
    {
        let op = match self.op {
            Op::Gt => ">",
            Op::Gte => ">=",
            Op::Lt => "<",
            Op::Lte => "<=",
            Op::Eq => "=",
        };
        let mut out = text::chars_of(op);
        text::append(&mut out, &self.version.render());
        text::string_of(&out)
    }
}

/// Whether two versions have the same three numbers.
pub open spec fn same_core(a: VersionModel, b: VersionModel) -> bool {
    a.major == b.major && a.minor == b.minor && a.patch == b.patch
}

/// Whether a comparator set takes a version: every bound holds, and a
/// prerelease was asked for by a prerelease of that exact release.
pub open spec fn set_takes(set: Seq<ComparatorModel>, v: VersionModel) -> bool {
    &&& forall|i: int| 0 <= i < set.len() ==> within(#[trigger] set[i], v)
    &&& v.prerelease.len() > 0 ==> exists|i: int|
        0 <= i < set.len() && (#[trigger] set[i]).version.prerelease.len() > 0 && same_core(
            set[i].version,
            v,
        )
}

/// Whether a comparator set takes a version.
pub fn set_matches(set: &Vec<Comparator>, version: &Version) -> (r: bool)
    ensures
        r == set_takes(comparators(set@), version@),
{
    let ghost all = comparators(set@);
    let mut i: usize = 0;
    let mut invited = false;
    while i < set.len()
        invariant
            i <= set@.len(),
            all == comparators(set@),
            forall|j: int| 0 <= j < i ==> within(#[trigger] all[j], version@),
            invited <==> exists|j: int|
                0 <= j < i && (#[trigger] all[j]).version.prerelease.len() > 0 && same_core(
                    all[j].version,
                    version@,
                ),
        decreases set@.len() - i,
    {
        assert(all[i as int] == set@[i as int]@);
        if !set[i].matches(version) {
            return false;
        }
        let asked = set[i].version.is_prerelease() && set[i].version.major == version.major
            && set[i].version.minor == version.minor && set[i].version.patch == version.patch;
        if asked {
            assert(all[i as int].version.prerelease.len() > 0 && same_core(
                all[i as int].version,
                version@,
            ));
            invited = true;
        }
        i += 1;
    }
    !version.is_prerelease() || invited
}

// ---------------------------------------------------------------------------
// Partial versions and what the operators make of them.

/// A version with optional trailing parts: the `1.2.x` in `^1.2.x`.
#[derive(Debug)]
pub struct Partial {
    pub major: Option<u64>,
    pub minor: Option<u64>,
    pub patch: Option<u64>,
    pub prerelease: Vec<Identifier>,
    pub build: Option<String>,
}

/// What a `Partial` stands for.
#[verifier::ext_equal]
pub struct PartialModel {
    pub major: Option<u64>,
    pub minor: Option<u64>,
    pub patch: Option<u64>,
    pub prerelease: Seq<IdentifierModel>,
    pub build: Option<Seq<char>>,
}

impl View for Partial {
    type V = PartialModel;

    open spec fn view(&self) -> PartialModel {
        PartialModel {
            major: self.major,
            minor: self.minor,
            patch: self.patch,
            prerelease: identifiers(self.prerelease@),
            build: text::view_of(self.build),
        }
    }
}

/// A number that may be missing, as zero.
pub open spec fn or_zero(n: Option<u64>) -> u64 {
    match n {
        Some(n) => n,
        None => 0,
    }
}

/// The next number. The largest one wraps around to zero, so that a bound above
/// it admits nothing.
pub open spec fn bump(n: u64) -> u64 {
    if n == u64::MAX {
        0
    } else {
        (n + 1) as u64
    }
}

/// The exact version that a partial names, when it names one.
pub open spec fn exact_version(p: PartialModel) -> Option<VersionModel> {
    match (p.major, p.minor, p.patch) {
        (Some(major), Some(minor), Some(patch)) => Some(
            VersionModel { major, minor, patch, prerelease: p.prerelease, build: p.build },
        ),
        _ => None,
    }
}

/// The least version that a partial can mean.
pub open spec fn least_version(p: PartialModel) -> VersionModel {
    VersionModel {
        major: or_zero(p.major),
        minor: or_zero(p.minor),
        patch: or_zero(p.patch),
        prerelease: p.prerelease,
        build: None,
    }
}

/// One comparator.
pub open spec fn bound(op: Op, version: VersionModel) -> ComparatorModel {
    ComparatorModel { op, version }
}

/// From `lower` on, and below `upper`.
pub open spec fn between(lower: VersionModel, upper: VersionModel) -> Seq<ComparatorModel> {
    seq![bound(Op::Gte, lower), bound(Op::Lt, upper)]
}

/// The first release after the line that a partial names: `2.0.0` for `1`,
/// `1.3.0` for `1.2`.
pub open spec fn line_end(major: u64, minor: Option<u64>) -> VersionModel {
    match minor {
        None => release(bump(major), 0, 0),
        Some(minor) => release(major, bump(minor), 0),
    }
}

/// `^1.2.3` allows changes that do not modify the left-most non-zero part.
pub open spec fn caret_set(p: PartialModel) -> Seq<ComparatorModel> {
    match p.major {
        None => Seq::empty(),
        Some(major) => between(
            least_version(p),
            if major > 0 || p.minor is None {
                release(bump(major), 0, 0)
            } else if p.minor->0 > 0 || p.patch is None {
                release(0, bump(p.minor->0), 0)
            } else {
                release(0, 0, bump(p.patch->0))
            },
        ),
    }
}

/// `~1.2.3` allows patch-level changes if a minor version is specified.
pub open spec fn tilde_set(p: PartialModel) -> Seq<ComparatorModel> {
    match p.major {
        None => Seq::empty(),
        Some(major) => between(least_version(p), line_end(major, p.minor)),
    }
}

/// A comparison with a partial version compares with the whole line that it
/// names. `>=*` and `<=*` match anything; `>*` and `<*` match nothing.
pub open spec fn primitive_set(op: Op, p: PartialModel) -> Seq<ComparatorModel> {
    match exact_version(p) {
        Some(version) => seq![bound(op, version)],
        None => match p.major {
            None => if op == Op::Gt || op == Op::Lt {
                seq![bound(Op::Lt, release(0, 0, 0))]
            } else {
                Seq::empty()
            },
            Some(major) => {
                let start = release(major, or_zero(p.minor), 0);
                let end = line_end(major, p.minor);
                match op {
                    Op::Eq => between(start, end),
                    Op::Gt => seq![bound(Op::Gte, end)],
                    Op::Gte => seq![bound(Op::Gte, start)],
                    Op::Lt => seq![bound(Op::Lt, start)],
                    Op::Lte => seq![bound(Op::Lt, end)],
                }
            },
        },
    }
}

/// `low - high`, where a partial upper bound takes in the whole line it names.
pub open spec fn hyphen_set(low: PartialModel, high: PartialModel) -> Seq<ComparatorModel> {
    let from = if low.major is Some {
        seq![bound(Op::Gte, least_version(low))]
    } else {
        Seq::empty()
    };
    let to = match (exact_version(high), high.major) {
        (Some(version), _) => seq![bound(Op::Lte, version)],
        (None, Some(major)) => seq![bound(Op::Lt, line_end(major, high.minor))],
        (None, None) => Seq::empty(),
    };
    from + to
}

fn next_number(n: u64) -> (r: u64)
    ensures
        r == bump(n),
{
    n.wrapping_add(1)
}

fn end_of_line(major: u64, minor: Option<u64>) -> (r: Version)
    ensures
        r@ == line_end(major, minor),
{
    match minor {
        None => Version::new(next_number(major), 0, 0),
        Some(minor) => Version::new(major, next_number(minor), 0),
    }
}

fn number_or_zero(n: Option<u64>) -> (r: u64)
    ensures
        r == or_zero(n),
{
    match n {
        Some(n) => n,
        None => 0,
    }
}

fn single(op: Op, version: Version) -> (r: Vec<Comparator>)
    ensures
        comparators(r@) == seq![bound(op, version@)],
{
    let ghost v = version@;
    let mut r: Vec<Comparator> = Vec::new();
    r.push(Comparator { op, version });
    assert(comparators(r@) =~= seq![bound(op, v)]);
    r
}

fn bounded(lower: Version, upper: Version) -> (r: Vec<Comparator>)
    ensures
        comparators(r@) == between(lower@, upper@),
{
    let ghost (low, high) = (lower@, upper@);
    let mut r: Vec<Comparator> = Vec::new();
    r.push(Comparator { op: Op::Gte, version: lower });
    r.push(Comparator { op: Op::Lt, version: upper });
    assert(comparators(r@) =~= between(low, high));
    r
}

fn nothing() -> (r: Vec<Comparator>)
    ensures
        comparators(r@) == Seq::<ComparatorModel>::empty(),
{
    let r: Vec<Comparator> = Vec::new();
    assert(comparators(r@) =~= Seq::empty());
    r
}

impl Partial {
    /// The exact version this partial names, when it names one.
    pub fn exact(&self) -> (r: Option<Version>)
        ensures
            text::view_of(r) == exact_version(self@),
    {
        match (self.major, self.minor, self.patch) {
            (Some(major), Some(minor), Some(patch)) => Some(
                Version {
                    major,
                    minor,
                    patch,
                    prerelease: copy_identifiers(&self.prerelease),
                    build: copy_text(&self.build),
                },
            ),
            _ => None,
        }
    }

    /// The least version this partial can mean.
    pub fn lower_bound(&self) -> (r: Version)
        ensures
            r@ == least_version(self@),
    {
        Version {
            major: number_or_zero(self.major),
            minor: number_or_zero(self.minor),
            patch: number_or_zero(self.patch),
            prerelease: copy_identifiers(&self.prerelease),
            build: None,
        }
    }
}

/// The comparators of `^partial`.
pub fn caret(partial: &Partial) -> (r: Vec<Comparator>)
    ensures
        comparators(r@) == caret_set(partial@),
{
    match partial.major {
        None => nothing(),
        Some(major) => {
            let upper = match (partial.minor, partial.patch) {
                (None, _) => Version::new(next_number(major), 0, 0),
                (Some(minor), None) => {
                    if major > 0 {
                        Version::new(next_number(major), 0, 0)
                    } else {
                        Version::new(0, next_number(minor), 0)
                    }
                },
                (Some(minor), Some(patch)) => {
                    if major > 0 {
                        Version::new(next_number(major), 0, 0)
                    } else if minor > 0 {
                        Version::new(0, next_number(minor), 0)
                    } else {
                        Version::new(0, 0, next_number(patch))
                    }
                },
            };
            bounded(partial.lower_bound(), upper)
        },
    }
}

/// The comparators of `~partial`.
pub fn tilde(partial: &Partial) -> (r: Vec<Comparator>)
    ensures
        comparators(r@) == tilde_set(partial@),
{
    match partial.major {
        None => nothing(),
        Some(major) => bounded(partial.lower_bound(), end_of_line(major, partial.minor)),
    }
}

/// The comparators of an operator in front of a partial version.
pub fn primitive(op: Op, partial: &Partial) -> (r: Vec<Comparator>)
    ensures
        comparators(r@) == primitive_set(op, partial@),
{
    if let Some(version) = partial.exact() {
        return single(op, version);
    }
    match partial.major {
        None => match op {
            Op::Gte | Op::Lte | Op::Eq => nothing(),
            Op::Gt | Op::Lt => single(Op::Lt, Version::new(0, 0, 0)),
        },
        Some(major) => {
            let start = Version::new(major, number_or_zero(partial.minor), 0);
            let end = end_of_line(major, partial.minor);
            match op {
                Op::Eq => bounded(start, end),
                Op::Gt => single(Op::Gte, end),
                Op::Gte => single(Op::Gte, start),
                Op::Lt => single(Op::Lt, start),
                Op::Lte => single(Op::Lt, end),
            }
        },
    }
}

/// The comparators of `low - high`.
pub fn hyphen(low: &Partial, high: &Partial) -> (r: Vec<Comparator>)
    ensures
        comparators(r@) == hyphen_set(low@, high@),
{
    let mut r = if low.major.is_some() {
        single(Op::Gte, low.lower_bound())
    } else {
        nothing()
    };
    let mut upper = match (high.exact(), high.major) {
        (Some(version), _) => single(Op::Lte, version),
        (None, Some(major)) => single(Op::Lt, end_of_line(major, high.minor)),
        (None, None) => nothing(),
    };
    let ghost (from, to) = (r@, upper@);
    r.append(&mut upper);
    assert(comparators(r@) =~= comparators(from) + comparators(to));
    r
}

// ---------------------------------------------------------------------------
// Reading ranges.

/// A part that stands for any number.
pub open spec fn is_wildcard(s: Seq<char>) -> bool {
    s == "*"@ || s == "x"@ || s == "X"@ || s.len() == 0
}

/// The numbers up to the first wildcard; there may be at most three. What
/// follows a wildcard adds nothing.
pub open spec fn leading_numbers(parts: Seq<Seq<char>>, room: nat) -> Option<Seq<u64>>
    decreases parts.len(),
{
    if parts.len() == 0 {
        Some(Seq::empty())
    } else if room == 0 {
        None
    } else if is_wildcard(parts[0]) {
        Some(Seq::empty())
    } else {
        match number_of(parts[0]) {
            Some(n) => text::prepend(
                seq![n],
                leading_numbers(parts.skip(1), (room - 1) as nat),
            ),
            None => None,
        }
    }
}

/// The element at a position, where there is one.
pub open spec fn nth(numbers: Seq<u64>, at: int) -> Option<u64> {
    if 0 <= at < numbers.len() {
        Some(numbers[at])
    } else {
        None
    }
}

/// `s` without the `v`s in front.
pub open spec fn without_vs(s: Seq<char>) -> Seq<char>
    decreases s.len(),
{
    if s.len() > 0 && s[0] == 'v' {
        without_vs(s.skip(1))
    } else {
        s
    }
}

/// The partial version that a text spells.
pub open spec fn partial_of(s: Seq<char>) -> Option<PartialModel> {
    let t = without_vs(text::trimmed(s));
    if is_wildcard(t) {
        Some(
            PartialModel {
                major: None,
                minor: None,
                patch: None,
                prerelease: Seq::empty(),
                build: None,
            },
        )
    } else {
        match sections_of(t) {
            Some(sections) => match leading_numbers(text::pieces(sections.numbers, '.'), 3) {
                Some(numbers) => Some(
                    PartialModel {
                        major: nth(numbers, 0),
                        minor: nth(numbers, 1),
                        patch: nth(numbers, 2),
                        prerelease: sections.prerelease,
                        build: sections.build,
                    },
                ),
                None => None,
            },
            None => None,
        }
    }
}

/// The operator in front of a token, and what follows it. Of two that fit, the
/// longer one is meant.
pub open spec fn operator_of(token: Seq<char>) -> (Seq<char>, Seq<char>) {
    if text::begins(token, ">="@) {
        (">="@, token.skip(">="@.len() as int))
    } else if text::begins(token, "<="@) {
        ("<="@, token.skip("<="@.len() as int))
    } else if text::begins(token, "~>"@) {
        ("~>"@, token.skip("~>"@.len() as int))
    } else if text::begins(token, ">"@) {
        (">"@, token.skip(">"@.len() as int))
    } else if text::begins(token, "<"@) {
        ("<"@, token.skip("<"@.len() as int))
    } else if text::begins(token, "="@) {
        ("="@, token.skip("="@.len() as int))
    } else if text::begins(token, "^"@) {
        ("^"@, token.skip("^"@.len() as int))
    } else if text::begins(token, "~"@) {
        ("~"@, token.skip("~"@.len() as int))
    } else {
        (""@, token)
    }
}

/// What an operator in front of a partial version means.
pub open spec fn operated(operator: Seq<char>, p: PartialModel) -> Seq<ComparatorModel> {
    if operator == "^"@ {
        caret_set(p)
    } else if operator == "~"@ || operator == "~>"@ {
        tilde_set(p)
    } else if operator == ">"@ {
        primitive_set(Op::Gt, p)
    } else if operator == ">="@ {
        primitive_set(Op::Gte, p)
    } else if operator == "<"@ {
        primitive_set(Op::Lt, p)
    } else if operator == "<="@ {
        primitive_set(Op::Lte, p)
    } else {
        primitive_set(Op::Eq, p)
    }
}

/// One token of a comparator set.
pub open spec fn simple_of(token: Seq<char>) -> Option<Seq<ComparatorModel>> {
    let (operator, rest) = operator_of(token);
    match partial_of(rest) {
        Some(p) => Some(operated(operator, p)),
        None => None,
    }
}

/// An operator that stands by itself and belongs to the next word.
pub open spec fn is_detached_operator(word: Seq<char>) -> bool {
    word == ">"@ || word == ">="@ || word == "<"@ || word == "<="@ || word == "="@ || word == "^"@
        || word == "~"@
}

/// Words with detached operators joined to the word behind them. An operator at
/// the end is not a range.
pub open spec fn tokens_in(words: Seq<Seq<char>>) -> Option<Seq<Seq<char>>>
    decreases words.len(),
{
    if words.len() == 0 {
        Some(Seq::empty())
    } else if !is_detached_operator(words[0]) {
        text::prepend(seq![words[0]], tokens_in(words.skip(1)))
    } else if words.len() == 1 {
        None
    } else {
        text::prepend(seq![words[0] + words[1]], tokens_in(words.skip(2)))
    }
}

/// The comparators that tokens spell. Three tokens with a hyphen in the middle
/// are a hyphen range.
pub open spec fn set_in(tokens: Seq<Seq<char>>) -> Option<Seq<ComparatorModel>>
    decreases tokens.len(),
{
    if tokens.len() == 0 {
        Some(Seq::empty())
    } else if tokens.len() > 2 && tokens[1] == "-"@ {
        match (partial_of(tokens[0]), partial_of(tokens[2])) {
            (Some(low), Some(high)) => text::prepend(
                hyphen_set(low, high),
                set_in(tokens.skip(3)),
            ),
            _ => None,
        }
    } else {
        match simple_of(tokens[0]) {
            Some(found) => text::prepend(found, set_in(tokens.skip(1))),
            None => None,
        }
    }
}

/// The comparator set that a text spells.
pub open spec fn set_of(s: Seq<char>) -> Option<Seq<ComparatorModel>> {
    match tokens_in(text::words(s)) {
        Some(tokens) => set_in(tokens),
        None => None,
    }
}

/// Every part read as a comparator set.
pub open spec fn sets_in(parts: Seq<Seq<char>>) -> Option<Seq<Seq<ComparatorModel>>>
    decreases parts.len(),
{
    if parts.len() == 0 {
        Some(Seq::empty())
    } else {
        match set_of(parts[0]) {
            Some(set) => text::prepend(seq![set], sets_in(parts.skip(1))),
            None => None,
        }
    }
}

/// The union that a text spells: comparator sets with `||` between them.
pub open spec fn sets_of(s: Seq<char>) -> Option<Seq<Seq<ComparatorModel>>> {
    sets_in(text::pieces_by(text::trimmed(s), "||"@))
}

fn wildcard(s: &[char]) -> (r: bool)
    ensures
        r == is_wildcard(s@),
{
    s.len() == 0 || text::spells(s, "*") || text::spells(s, "x") || text::spells(s, "X")
}

fn skip_vs<'a>(s: &'a [char]) -> (r: &'a [char])
    ensures
        r@ == without_vs(s@),
{
    let mut at: usize = 0;
    assert(s@.skip(0) =~= s@);
    while at < s.len() && s[at] == 'v'
        invariant
            at <= s@.len(),
            without_vs(s@) == without_vs(s@.skip(at as int)),
        decreases s@.len() - at,
    {
        assert(s@.skip(at as int).skip(1) =~= s@.skip(at + 1));
        at += 1;
    }
    text::after(s, at)
}

fn read_numbers(parts: &Vec<&[char]>) -> (r: Option<Vec<u64>>)
    ensures
        r is Some <==> leading_numbers(text::views(parts@), 3) is Some,
        r matches Some(numbers) ==> leading_numbers(text::views(parts@), 3) == Some(numbers@),
{
    let ghost all = text::views(parts@);
    let mut numbers: Vec<u64> = Vec::new();
    let mut i: usize = 0;
    proof {
        assert(all.skip(0) =~= all);
        text::lemma_prepend_nothing(leading_numbers(all, 3));
        assert(numbers@ =~= Seq::empty());
    }
    while i < parts.len()
        invariant
            i <= parts@.len(),
            i <= 3,
            all == text::views(parts@),
            leading_numbers(all, 3) == text::prepend(
                numbers@,
                leading_numbers(all.skip(i as int), (3 - i) as nat),
            ),
        decreases parts@.len() - i,
    {
        assert(all.skip(i as int)[0] == parts@[i as int]@);
        if i == 3 {
            return None;
        }
        if wildcard(parts[i]) {
            assert(numbers@ + Seq::empty() =~= numbers@);
            return Some(numbers);
        }
        match parse_number(parts[i]) {
            Some(n) => {
                let ghost done = numbers@;
                numbers.push(n);
                proof {
                    assert(numbers@ =~= done + seq![n]);
                    assert(all.skip(i as int).skip(1) =~= all.skip(i + 1));
                    text::lemma_prepend(
                        done,
                        seq![n],
                        leading_numbers(all.skip(i + 1), (3 - i - 1) as nat),
                    );
                }
            },
            None => {
                return None;
            },
        }
        i += 1;
    }
    proof {
        assert(all.skip(i as int) =~= Seq::empty());
        assert(numbers@ + Seq::empty() =~= numbers@);
    }
    Some(numbers)
}

fn number_at(numbers: &Vec<u64>, at: usize) -> (r: Option<u64>)
    ensures
        r == nth(numbers@, at as int),
{
    if at < numbers.len() {
        Some(numbers[at])
    } else {
        None
    }
}

/// Reads a partial version.
pub fn parse_partial(given: &[char]) -> (r: Option<Partial>)
    ensures
        text::view_of(r) == partial_of(given@),
{
    let s = skip_vs(text::trim(given));
    if wildcard(s) {
        let r = Partial {
            major: None,
            minor: None,
            patch: None,
            prerelease: Vec::new(),
            build: None,
        };
        assert(r@.prerelease =~= Seq::empty());
        return Some(r);
    }
    match cut_sections(s) {
        Some((numbers, prerelease, build)) => match read_numbers(&text::split(numbers, '.')) {
            Some(found) => Some(
                Partial {
                    major: number_at(&found, 0),
                    minor: number_at(&found, 1),
                    patch: number_at(&found, 2),
                    prerelease,
                    build,
                },
            ),
            None => None,
        },
        None => None,
    }
}

fn split_operator<'a>(token: &'a [char]) -> (r: (&'static str, &'a [char]))
    ensures
        operator_of(token@) == (r.0@, r.1@),
{
    if let Some(rest) = text::strip_prefix(token, ">=") {
        (">=", rest)
    } else if let Some(rest) = text::strip_prefix(token, "<=") {
        ("<=", rest)
    } else if let Some(rest) = text::strip_prefix(token, "~>") {
        ("~>", rest)
    } else if let Some(rest) = text::strip_prefix(token, ">") {
        (">", rest)
    } else if let Some(rest) = text::strip_prefix(token, "<") {
        ("<", rest)
    } else if let Some(rest) = text::strip_prefix(token, "=") {
        ("=", rest)
    } else if let Some(rest) = text::strip_prefix(token, "^") {
        ("^", rest)
    } else if let Some(rest) = text::strip_prefix(token, "~") {
        ("~", rest)
    } else {
        ("", token)
    }
}

/// Reads one token of a comparator set.
pub fn parse_simple(token: &[char]) -> (r: Option<Vec<Comparator>>)
    ensures
        r is Some <==> simple_of(token@) is Some,
        r matches Some(list) ==> simple_of(token@) == Some(comparators(list@)),
{
    let (operator, rest) = split_operator(token);
    match parse_partial(rest) {
        Some(partial) => Some(
            if text::same_text(operator, "^") {
                caret(&partial)
            } else if text::same_text(operator, "~") || text::same_text(operator, "~>") {
                tilde(&partial)
            } else if text::same_text(operator, ">") {
                primitive(Op::Gt, &partial)
            } else if text::same_text(operator, ">=") {
                primitive(Op::Gte, &partial)
            } else if text::same_text(operator, "<") {
                primitive(Op::Lt, &partial)
            } else if text::same_text(operator, "<=") {
                primitive(Op::Lte, &partial)
            } else {
                primitive(Op::Eq, &partial)
            },
        ),
        None => None,
    }
}

fn detached_operator(word: &[char]) -> (r: bool)
    ensures
        r == is_detached_operator(word@),
{
    text::spells(word, ">") || text::spells(word, ">=") || text::spells(word, "<") || text::spells(
        word,
        "<=",
    ) || text::spells(word, "=") || text::spells(word, "^") || text::spells(word, "~")
}

/// Splits on white space, then joins operators that were written detached
/// (`>= 1.2.3`), which npm tolerates and real `package.json` files contain.
pub fn tokenize(s: &[char]) -> (r: Option<Vec<Vec<char>>>)
    ensures
        r is Some <==> tokens_in(text::words(s@)) is Some,
        r matches Some(tokens) ==> tokens_in(text::words(s@)) == Some(text::texts(tokens@)),
{
    let words = text::split_whitespace(s);
    let ghost all = text::words(s@);
    let mut tokens: Vec<Vec<char>> = Vec::new();
    let mut i: usize = 0;
    proof {
        assert(all.skip(0) =~= all);
        text::lemma_prepend_nothing(tokens_in(all));
        assert(text::texts(tokens@) =~= Seq::empty());
    }
    while i < words.len()
        invariant
            i <= words@.len(),
            text::views(words@) == all,
            all == text::words(s@),
            tokens_in(all) == text::prepend(
                text::texts(tokens@),
                tokens_in(all.skip(i as int)),
            ),
        decreases words@.len() - i,
    {
        let ghost rest = all.skip(i as int);
        let ghost done = text::texts(tokens@);
        assert(all.len() == words@.len());
        assert(rest[0] == words@[i as int]@);
        let mut token: Vec<char> = Vec::new();
        text::append(&mut token, words[i]);
        assert(token@ =~= rest[0]);
        if !detached_operator(words[i]) {
            tokens.push(token);
            proof {
                assert(text::texts(tokens@) =~= done + seq![rest[0]]);
                assert(rest.skip(1) =~= all.skip(i + 1));
                text::lemma_prepend(done, seq![rest[0]], tokens_in(all.skip(i + 1)));
            }
            i += 1;
        } else {
            if i + 1 == words.len() {
                return None;
            }
            assert(rest[1] == words@[i + 1]@);
            text::append(&mut token, words[i + 1]);
            tokens.push(token);
            proof {
                let one = seq![rest[0] + rest[1]];
                assert(text::texts(tokens@) =~= done + one);
                assert(rest.skip(2) =~= all.skip(i + 2));
                text::lemma_prepend(done, one, tokens_in(all.skip(i + 2)));
            }
            i += 2;
        }
    }
    proof {
        assert(all.skip(i as int) =~= Seq::empty());
        assert(text::texts(tokens@) + Seq::empty() =~= text::texts(tokens@));
    }
    Some(tokens)
}

/// Reads a comparator set.
pub fn parse_comparator_set(s: &[char]) -> (r: Option<Vec<Comparator>>)
    ensures
        r is Some <==> set_of(s@) is Some,
        r matches Some(list) ==> set_of(s@) == Some(comparators(list@)),
{
    let tokens = match tokenize(s) {
        Some(tokens) => tokens,
        None => {
            return None;
        },
    };
    let ghost all = text::texts(tokens@);
    let mut list: Vec<Comparator> = Vec::new();
    let mut i: usize = 0;
    proof {
        assert(all.skip(0) =~= all);
        text::lemma_prepend_nothing(set_in(all));
        assert(comparators(list@) =~= Seq::empty());
    }
    while i < tokens.len()
        invariant
            i <= tokens@.len(),
            all == text::texts(tokens@),
            set_of(s@) == set_in(all),
            set_in(all) == text::prepend(comparators(list@), set_in(all.skip(i as int))),
        decreases tokens@.len() - i,
    {
        let ghost rest = all.skip(i as int);
        let ghost done = list@;
        assert(all.len() == tokens@.len());
        assert(rest[0] == tokens@[i as int]@);
        let more = tokens.len() - i > 2;
        if more {
            assert(rest[1] == tokens@[i + 1]@);
            assert(rest[2] == tokens@[i + 2]@);
        }
        if more && text::spells(&tokens[i + 1], "-") {
            match (parse_partial(&tokens[i]), parse_partial(&tokens[i + 2])) {
                (Some(low), Some(high)) => {
                    let mut found = hyphen(&low, &high);
                    let ghost one = found@;
                    list.append(&mut found);
                    proof {
                        assert(comparators(list@) =~= comparators(done) + comparators(one));
                        assert(rest.skip(3) =~= all.skip(i + 3));
                        text::lemma_prepend(
                            comparators(done),
                            comparators(one),
                            set_in(all.skip(i + 3)),
                        );
                    }
                },
                _ => {
                    return None;
                },
            }
            i += 3;
        } else {
            match parse_simple(&tokens[i]) {
                Some(mut found) => {
                    let ghost one = found@;
                    list.append(&mut found);
                    proof {
                        assert(comparators(list@) =~= comparators(done) + comparators(one));
                        assert(rest.skip(1) =~= all.skip(i + 1));
                        text::lemma_prepend(
                            comparators(done),
                            comparators(one),
                            set_in(all.skip(i + 1)),
                        );
                    }
                },
                None => {
                    return None;
                },
            }
            i += 1;
        }
    }
    proof {
        assert(all.skip(i as int) =~= Seq::empty());
        assert(comparators(list@) + Seq::empty() =~= comparators(list@));
    }
    Some(list)
}

// ---------------------------------------------------------------------------
// Ranges.

/// A union of comparator sets: `^1 || >=2.3 <3` is two sets.
#[derive(PartialEq, Eq, Debug)]
pub struct Range {
    sets: Vec<Vec<Comparator>>,
    raw: String,
}

/// What a `Range` stands for.
#[verifier::ext_equal]
pub struct RangeModel {
    pub sets: Seq<Seq<ComparatorModel>>,
    pub raw: Seq<char>,
}

/// The comparator sets that a list of lists stands for.
pub open spec fn comparator_sets(sets: Seq<Vec<Comparator>>) -> Seq<Seq<ComparatorModel>> {
    sets.map_values(|set: Vec<Comparator>| comparators(set@))
}

impl View for Range {
    type V = RangeModel;

    closed spec fn view(&self) -> RangeModel {
        RangeModel { sets: comparator_sets(self.sets@), raw: self.raw@ }
    }
}

fn copy_comparators(list: &Vec<Comparator>) -> (out: Vec<Comparator>)
    ensures
        comparators(out@) == comparators(list@),
{
    let mut out: Vec<Comparator> = Vec::new();
    let mut i: usize = 0;
    while i < list.len()
        invariant
            i <= list@.len(),
            comparators(out@) == comparators(list@).take(i as int),
        decreases list@.len() - i,
    {
        let ghost done = out@;
        let copy = list[i].clone();
        out.push(copy);
        assert(comparators(out@) =~= comparators(done).push(copy@));
        assert(comparators(list@).take(i + 1) =~= comparators(list@).take(i as int).push(copy@));
        i += 1;
    }
    assert(comparators(list@).take(i as int) =~= comparators(list@));
    out
}

impl Clone for Range {
    fn clone(&self) -> (r: Self)
        ensures
            r@ == self@,
    {
        let mut sets: Vec<Vec<Comparator>> = Vec::new();
        let mut i: usize = 0;
        let ghost all = comparator_sets(self.sets@);
        while i < self.sets.len()
            invariant
                i <= self.sets@.len(),
                all == comparator_sets(self.sets@),
                comparator_sets(sets@) == all.take(i as int),
            decreases self.sets@.len() - i,
        {
            let ghost done = sets@;
            let copy = copy_comparators(&self.sets[i]);
            sets.push(copy);
            assert(comparator_sets(sets@) =~= comparator_sets(done).push(comparators(copy@)));
            assert(all.take(i + 1) =~= all.take(i as int).push(comparators(copy@)));
            i += 1;
        }
        assert(all.take(i as int) =~= all);
        Range { sets, raw: self.raw.clone() }
    }
}

/// The range that a text spells: its sets, and the text itself without the
/// white space around it. Nothing at all is the `*` range.
pub open spec fn range_of(s: Seq<char>) -> Option<RangeModel> {
    let raw = text::trimmed(s);
    match sets_of(s) {
        Some(sets) => Some(
            RangeModel {
                sets,
                raw: if raw.len() == 0 {
                    "*"@
                } else {
                    raw
                },
            },
        ),
        None => None,
    }
}

/// Whether a range takes a version: some comparator set does.
pub open spec fn range_takes(r: RangeModel, v: VersionModel) -> bool {
    exists|i: int| 0 <= i < r.sets.len() && set_takes(#[trigger] r.sets[i], v)
}

/// Build metadata does not count.
pub proof fn lemma_range_ignores_build(r: RangeModel, a: VersionModel, b: VersionModel)
    requires
        a.rank() == b.rank(),
    ensures
        range_takes(r, a) == range_takes(r, b),
{
    version_order_is_precedence(a, b);
    assert forall|i: int| 0 <= i < r.sets.len() implies set_takes(#[trigger] r.sets[i], a)
        == set_takes(r.sets[i], b) by {
        lemma_set_ignores_build(r.sets[i], a, b);
        lemma_set_ignores_build(r.sets[i], b, a);
    }
}

proof fn lemma_set_ignores_build(set: Seq<ComparatorModel>, a: VersionModel, b: VersionModel)
    requires
        same_precedence(a, b),
    ensures
        set_takes(set, a) ==> set_takes(set, b),
{
    if set_takes(set, a) {
        lemma_taken_ignores_build(set, a, b);
    }
}

proof fn lemma_taken_ignores_build(set: Seq<ComparatorModel>, a: VersionModel, b: VersionModel)
    requires
        same_precedence(a, b),
        set_takes(set, a),
    ensures
        set_takes(set, b),
{
    assert forall|i: int| 0 <= i < set.len() implies within(#[trigger] set[i], b) by {
        assert(within(set[i], a));
    }
    if b.prerelease.len() > 0 {
        let i = choose|i: int|
            0 <= i < set.len() && (#[trigger] set[i]).version.prerelease.len() > 0 && same_core(
                set[i].version,
                a,
            );
        assert(same_core(set[i].version, b));
    }
}

/// No text at all and `*` are the same range.
pub proof fn empty_range_is_any(s: Seq<char>)
    requires
        s.len() == 0,
    ensures
        range_of(s) == range_of("*"@),
        range_of("*"@) == Some((RangeModel { sets: seq![Seq::empty()], raw: "*"@ })),
{
    reveal_strlit("*");
    reveal_strlit("||");
    reveal_strlit("x");
    reveal_strlit("X");
    reveal_strlit("-");
    reveal_strlit(">");
    reveal_strlit(">=");
    reveal_strlit("<");
    reveal_strlit("<=");
    reveal_strlit("=");
    reveal_strlit("^");
    reveal_strlit("~");
    reveal_strlit("~>");
    reveal_with_fuel(text::first_match, 3);
    reveal_with_fuel(sets_in, 3);
    reveal_with_fuel(tokens_in, 3);
    reveal_with_fuel(set_in, 3);
    let star = "*"@;
    assert(star =~= seq!['*']);
    // No text.
    assert(s =~= Seq::empty());
    assert(text::trimmed(s) =~= s);
    assert(text::pieces_by(s, "||"@) =~= seq![s]);
    assert(text::words(s) =~= Seq::empty());
    assert(set_of(s) == Some(Seq::<ComparatorModel>::empty()));
    assert(seq![s].skip(1) =~= Seq::empty());
    assert(sets_of(s)->0 =~= seq![Seq::empty()]);
    // A star.
    assert(!text::is_space('*'));
    text::lemma_trimmed_same(star);
    assert(star.skip(1) =~= Seq::empty());
    assert(text::pieces_by(star, "||"@) =~= seq![star]);
    text::lemma_one_word(star);
    assert(seq![star].skip(1) =~= Seq::empty());
    assert(tokens_in(seq![star])->0 =~= seq![star]);
    assert(!text::begins(star, ">"@) && !text::begins(star, "<"@) && !text::begins(star, "="@)
        && !text::begins(star, "^"@) && !text::begins(star, "~"@)) by {
        assert(star.take(1)[0] == '*');
    }
    assert(operator_of(star) == (""@, star));
    assert(without_vs(star) == star);
    let p = partial_of(star)->0;
    assert(exact_version(p) is None);
    reveal_strlit("");
    assert(operated(""@, p) =~= Seq::empty());
    assert(set_in(seq![star])->0 =~= Seq::empty());
    assert(seq![star].skip(1) =~= Seq::empty());
    assert(sets_of(star)->0 =~= seq![Seq::empty()]);
}

/// The last of the highest versions that a range takes.
pub open spec fn highest(r: RangeModel, versions: Seq<VersionModel>) -> Option<int>
    decreases versions.len(),
{
    if versions.len() == 0 {
        None
    } else {
        let last = versions.len() - 1;
        match highest(r, versions.drop_last()) {
            None => if range_takes(r, versions[last]) {
                Some(last)
            } else {
                None
            },
            Some(at) => if range_takes(r, versions[last]) && !version_before(
                versions[last],
                versions[at],
            ) {
                Some(last)
            } else {
                Some(at)
            },
        }
    }
}

/// The versions that a list of references stands for.
pub open spec fn versions(list: Seq<&Version>) -> Seq<VersionModel> {
    list.map_values(|v: &Version| v@)
}

impl Range {
    /// Parses a range.
    pub fn parse(text: &str) -> (r: Result<Self, SemverError>)
        ensures
            match r {
                Ok(range) => range_of(text@) == Some(range@),
                Err(SemverError::Range(given)) => range_of(text@) is None && given@ == text@,
                Err(SemverError::Version(_)) => false,
            },
    {
        let chars = text::chars_of(text);
        let raw = text::trim(&chars);
        proof {
            reveal_strlit("||");
        }
        let parts = text::split_text(raw, "||");
        let ghost all = text::pieces_by(raw@, "||"@);
        let mut sets: Vec<Vec<Comparator>> = Vec::new();
        let mut i: usize = 0;
        proof {
            assert(all.skip(0) =~= all);
            text::lemma_prepend_nothing(sets_in(all));
            assert(comparator_sets(sets@) =~= Seq::empty());
        }
        while i < parts.len()
            invariant
                i <= parts@.len(),
                text::views(parts@) == all,
                sets_of(text@) == sets_in(all),
                sets_in(all) == text::prepend(
                    comparator_sets(sets@),
                    sets_in(all.skip(i as int)),
                ),
            decreases parts@.len() - i,
        {
            assert(all.skip(i as int)[0] == parts@[i as int]@);
            match parse_comparator_set(parts[i]) {
                Some(set) => {
                    let ghost done = comparator_sets(sets@);
                    sets.push(set);
                    proof {
                        let one = seq![comparators(set@)];
                        assert(comparator_sets(sets@) =~= done + one);
                        assert(all.skip(i as int).skip(1) =~= all.skip(i + 1));
                        text::lemma_prepend(done, one, sets_in(all.skip(i + 1)));
                    }
                },
                None => {
                    return Err(SemverError::Range(text.to_string()));
                },
            }
            i += 1;
        }
        proof {
            assert(all.skip(i as int) =~= Seq::empty());
            assert(comparator_sets(sets@) + Seq::empty() =~= comparator_sets(sets@));
        }
        let raw = if raw.len() == 0 {
            "*".to_string()
        } else {
            text::string_of(raw)
        };
        Ok(Range { sets, raw })
    }

    /// Matches everything except prereleases: the `*` range.
    pub fn any() -> (r: Self)
        ensures
            r@ == (RangeModel { sets: seq![Seq::empty()], raw: "*"@ }),
    {
        let mut sets: Vec<Vec<Comparator>> = Vec::new();
        sets.push(nothing());
        assert(comparator_sets(sets@) =~= seq![Seq::empty()]);
        Range { sets, raw: "*".to_string() }
    }

    /// The range as it was written.
    pub fn as_str(&self) -> (r: &str)
        ensures
            r@ == self@.raw,
    {
        self.raw.as_str()
    }

    /// The range as it was written.
    pub fn to_string(&self) -> (r: String)
        ensures
            r@ == self@.raw,
    {
        self.raw.clone()
    }

    /// Whether a version is in the range.
    pub fn satisfies(&self, version: &Version) -> (r: bool)
        ensures
            r == range_takes(self@, version@),
    {
        let mut i: usize = 0;
        while i < self.sets.len()
            invariant
                i <= self.sets@.len(),
                forall|j: int| 0 <= j < i ==> !set_takes(#[trigger] self@.sets[j], version@),
            decreases self.sets@.len() - i,
        {
            assert(self@.sets[i as int] == comparators(self.sets@[i as int]@));
            if set_matches(&self.sets[i], version) {
                return true;
            }
            i += 1;
        }
        false
    }

    /// Position of the highest version in this range; of equals, the last.
    pub fn max_position(&self, list: &Vec<&Version>) -> (r: Option<usize>)
        ensures
            r is Some <==> highest(self@, versions(list@)) is Some,
            r matches Some(at) ==> highest(self@, versions(list@)) == Some(at as int) && at
                < list@.len(),
    {
        let ghost all = versions(list@);
        let mut best: Option<usize> = None;
        let mut i: usize = 0;
        while i < list.len()
            invariant
                i <= list@.len(),
                all == versions(list@),
                best is Some <==> highest(self@, all.take(i as int)) is Some,
                best matches Some(at) ==> highest(self@, all.take(i as int)) == Some(at as int)
                    && at < i,
            decreases list@.len() - i,
        {
            proof {
                let next = all.take(i + 1);
                assert(next.drop_last() =~= all.take(i as int));
                assert(next[i as int] == list@[i as int]@);
                if let Some(at) = best {
                    assert(next[at as int] == list@[at as int]@);
                }
            }
            if self.satisfies(list[i]) {
                match best {
                    None => {
                        best = Some(i);
                    },
                    Some(at) => {
                        if list[i].compare(list[at]) != Order::Less {
                            best = Some(i);
                        }
                    },
                }
            }
            i += 1;
        }
        assert(all.take(i as int) =~= all);
        best
    }

    /// The highest version satisfying this range; of equals, the last.
    pub fn max_satisfying<'a>(&self, candidates: &'a Vec<Version>) -> (r: Option<&'a Version>)
        ensures
            r is Some <==> highest(self@, candidates@.map_values(|v: Version| v@)) is Some,
            r matches Some(found) ==> found@ == candidates@[highest(
                self@,
                candidates@.map_values(|v: Version| v@),
            )->0]@,
    {
        let mut list: Vec<&'a Version> = Vec::new();
        let mut i: usize = 0;
        while i < candidates.len()
            invariant
                i <= candidates@.len(),
                list@.len() == i,
                forall|j: int| 0 <= j < i ==> *(#[trigger] list@[j]) == candidates@[j],
            decreases candidates@.len() - i,
        {
            list.push(&candidates[i]);
            i += 1;
        }
        assert(versions(list@) =~= candidates@.map_values(|v: Version| v@));
        match self.max_position(&list) {
            Some(at) => Some(list[at]),
            None => None,
        }
    }
}

/// What `highest` finds is in the range, no other version in the range comes
/// after it, and it finds one whenever there is one.
pub proof fn highest_is_the_maximum(r: RangeModel, versions: Seq<VersionModel>)
    ensures
        match highest(r, versions) {
            Some(at) => 0 <= at < versions.len() && range_takes(r, versions[at]) && forall|i: int|
                0 <= i < versions.len() && range_takes(r, #[trigger] versions[i])
                    ==> !version_before(versions[at], versions[i]),
            None => forall|i: int|
                0 <= i < versions.len() ==> !range_takes(r, #[trigger] versions[i]),
        },
    decreases versions.len(),
{
    if versions.len() > 0 {
        let front = versions.drop_last();
        let last = versions.len() - 1;
        highest_is_the_maximum(r, front);
        assert forall|i: int| 0 <= i < last implies #[trigger] versions[i] == front[i] by {}
        if let Some(at) = highest(r, front) {
            assert(versions[at] == front[at]);
            assert forall|i: int| 0 <= i < versions.len() && range_takes(r, #[trigger] versions[i])
                implies !version_before(versions[highest(r, versions)->0], versions[i]) by {
                version_order_is_total(versions[last], versions[last], versions[last]);
                version_order_is_total(versions[last], versions[at], versions[last]);
                if i < last {
                    assert(!version_before(front[at], front[i]));
                    version_order_is_total(versions[at], versions[last], versions[i]);
                    version_order_is_total(versions[last], versions[at], versions[i]);
                    version_order_is_total(versions[last], versions[i], versions[at]);
                    version_order_is_precedence(versions[at], versions[last]);
                    version_order_is_precedence(versions[at], versions[i]);
                    version_order_is_precedence(versions[last], versions[i]);
                }
            }
        } else {
            assert forall|i: int| 0 <= i < versions.len() && range_takes(r, #[trigger] versions[i])
                implies !version_before(versions[last], versions[i]) by {
                version_order_is_total(versions[last], versions[last], versions[last]);
                if i < last {
                    assert(!range_takes(r, front[i]));
                }
            }
        }
    }
}

// ---------------------------------------------------------------------------
// What ranges mean.

/// A prerelease is only ever picked up by a range that names a prerelease of
/// that exact release; so `*` takes none.
pub proof fn prerelease_needs_an_invitation(r: RangeModel, v: VersionModel)
    requires
        range_takes(r, v),
        v.prerelease.len() > 0,
    ensures
        exists|i: int, j: int|
            0 <= i < r.sets.len() && 0 <= j < r.sets[i].len() && (
            #[trigger] r.sets[i][j]).version.prerelease.len() > 0 && same_core(
                r.sets[i][j].version,
                v,
            ),
{
    let i = choose|i: int| 0 <= i < r.sets.len() && set_takes(#[trigger] r.sets[i], v);
    let set = r.sets[i];
    let j = choose|j: int|
        0 <= j < set.len() && (#[trigger] set[j]).version.prerelease.len() > 0 && same_core(
            set[j].version,
            v,
        );
    assert(r.sets[i][j].version.prerelease.len() > 0);
}

pub proof fn lemma_between(lower: VersionModel, upper: VersionModel, v: VersionModel)
    requires
        v.prerelease.len() == 0,
    ensures
        set_takes(between(lower, upper), v) <==> !version_before(v, lower) && version_before(
            v,
            upper,
        ),
{
    let set = between(lower, upper);
    assert(set[0] == bound(Op::Gte, lower) && set[1] == bound(Op::Lt, upper));
    if set_takes(set, v) {
        assert(within(set[0], v) && within(set[1], v));
    }
}

/// `^` allows changes that do not modify the left-most non-zero part: of the
/// releases, it takes those from the named version on that share it.
pub proof fn caret_keeps_the_leftmost_nonzero_part(p: PartialModel, v: VersionModel)
    requires
        p.major is Some && p.minor is Some && p.patch is Some,
        p.major->0 < u64::MAX && p.minor->0 < u64::MAX && p.patch->0 < u64::MAX,
        v.prerelease.len() == 0,
    ensures
        set_takes(caret_set(p), v) <==> {
            &&& !version_before(v, least_version(p))
            &&& v.major == p.major->0
            &&& p.major->0 == 0 ==> v.minor == p.minor->0
            &&& p.major->0 == 0 && p.minor->0 == 0 ==> v.patch == p.patch->0
        },
{
    let lower = least_version(p);
    if p.major->0 > 0 {
        lemma_between(lower, release(bump(p.major->0), 0, 0), v);
    } else if p.minor->0 > 0 {
        lemma_between(lower, release(0, bump(p.minor->0), 0), v);
    } else {
        lemma_between(lower, release(0, 0, bump(p.patch->0)), v);
    }
}

/// `~` with a minor version allows patch-level changes, without one it allows
/// minor-level changes.
pub proof fn tilde_keeps_the_named_line(p: PartialModel, v: VersionModel)
    requires
        p.major is Some && p.major->0 < u64::MAX,
        p.minor matches Some(minor) ==> minor < u64::MAX,
        v.prerelease.len() == 0,
    ensures
        set_takes(tilde_set(p), v) <==> {
            &&& !version_before(v, least_version(p))
            &&& v.major == p.major->0
            &&& p.minor matches Some(minor) ==> v.minor == minor
        },
{
    lemma_between(least_version(p), line_end(p.major->0, p.minor), v);
}

/// Three numbers with dots between them are a partial version that names all of
/// them.
proof fn lemma_core_is_partial(v: VersionModel)
    ensures
        partial_of(core_text(v)) == Some(
            PartialModel {
                major: Some(v.major),
                minor: Some(v.minor),
                patch: Some(v.patch),
                prerelease: Seq::empty(),
                build: None,
            },
        ),
{
    let s = core_text(v);
    lemma_core_reads_back(v);
    lemma_number_reads_back(v.major);
    lemma_number_reads_back(v.minor);
    lemma_number_reads_back(v.patch);
    assert(text::is_digit(s[s.len() - 1]) || s[s.len() - 1] == '.');
    text::lemma_trimmed_same(s);
    assert(without_vs(s) == s);
    reveal_strlit("*");
    reveal_strlit("x");
    reveal_strlit("X");
    assert(!is_wildcard(s)) by {
        assert(text::is_digit(s[0]));
    }
    assert(!s.contains('+') && !s.contains('-'));
    text::lemma_halves_none(s, '+');
    text::lemma_halves_none(s, '-');
    let a = text::decimal(v.major as nat);
    let b = text::decimal(v.minor as nat);
    let c = text::decimal(v.patch as nat);
    let parts = seq![a, b, c];
    assert(text::is_digit(a[0]) && text::is_digit(b[0]) && text::is_digit(c[0]));
    assert(!is_wildcard(a) && !is_wildcard(b) && !is_wildcard(c));
    assert(parts.skip(1) =~= seq![b, c]);
    assert(seq![b, c].skip(1) =~= seq![c]);
    assert(seq![c].skip(1) =~= Seq::empty());
    assert(leading_numbers(Seq::empty(), 0) == Some(Seq::<u64>::empty()));
    assert(leading_numbers(seq![c], 1) == Some(seq![v.patch])) by {
        assert(seq![v.patch] + Seq::empty() =~= seq![v.patch]);
    }
    assert(leading_numbers(seq![b, c], 2) == Some(seq![v.minor, v.patch])) by {
        assert(seq![v.minor] + seq![v.patch] =~= seq![v.minor, v.patch]);
    }
    assert(leading_numbers(parts, 3) == Some(seq![v.major, v.minor, v.patch])) by {
        assert(seq![v.major] + seq![v.minor, v.patch] =~= seq![v.major, v.minor, v.patch]);
    }
    let numbers = seq![v.major, v.minor, v.patch];
    assert(nth(numbers, 0) == Some(v.major));
    assert(nth(numbers, 1) == Some(v.minor));
    assert(nth(numbers, 2) == Some(v.patch));
}

/// A text without bars is one set.
pub proof fn lemma_no_bars(s: Seq<char>)
    requires
        !s.contains('|'),
    ensures
        text::pieces_by(s, "||"@) == seq![s],
{
    reveal_strlit("||");
    text::lemma_first_match(s, "||"@);
    if let Some(at) = text::first_match(s, "||"@) {
        assert(s.skip(at as int)[0] == "||"@[0]);
        assert(s[at as int] == '|');
    }
}

/// A sign and three numbers are a range of one set.
proof fn lemma_signed_range(sign: char, v: VersionModel)
    requires
        sign == '^' || sign == '~',
    ensures
        ({
            let p = PartialModel {
                major: Some(v.major),
                minor: Some(v.minor),
                patch: Some(v.patch),
                prerelease: Seq::empty(),
                build: None,
            };
            let s = seq![sign] + core_text(v);
            &&& range_of(s) is Some
            &&& range_of(s)->0.sets == seq![
                if sign == '^' {
                    caret_set(p)
                } else {
                    tilde_set(p)
                },
            ]
        }),
{
    let core = core_text(v);
    let s = seq![sign] + core;
    lemma_core_reads_back(v);
    lemma_core_is_partial(v);
    reveal_strlit(">=");
    reveal_strlit("<=");
    reveal_strlit("~>");
    reveal_strlit(">");
    reveal_strlit("<");
    reveal_strlit("=");
    reveal_strlit("^");
    reveal_strlit("~");
    assert(s[0] == sign);
    assert(s[1] == core[0]);
    assert forall|i: int| 0 <= i < s.len() implies !text::is_space(#[trigger] s[i]) && s[i]
        != '|' by {
        if i > 0 {
            assert(s[i] == core[i - 1]);
        }
    }
    assert(!s.contains('|'));
    text::lemma_trimmed_same(s);
    lemma_no_bars(s);
    text::lemma_one_word(s);
    assert(s.len() > 1);
    assert(!is_detached_operator(s)) by {
        assert(text::is_digit(s[1]));
    }
    let words = seq![s];
    assert(words.skip(1) =~= Seq::empty());
    assert(tokens_in(Seq::empty()) == Some(Seq::<Seq<char>>::empty()));
    assert(tokens_in(words) == Some(seq![s])) by {
        assert(seq![s] + Seq::empty() =~= seq![s]);
    }
    // The operator is the sign alone.
    assert(!text::begins(s, ">="@)) by {
        assert(">="@[0] == '>');
    }
    assert(!text::begins(s, "<="@)) by {
        assert("<="@[0] == '<');
    }
    assert(!text::begins(s, "~>"@)) by {
        if text::begins(s, "~>"@) {
            assert("~>"@[1] == '>');
            assert(s.take(2)[1] == s[1]);
        }
    }
    assert(!text::begins(s, ">"@) && !text::begins(s, "<"@) && !text::begins(s, "="@)) by {
        assert(">"@[0] == '>' && "<"@[0] == '<' && "="@[0] == '=');
    }
    assert(s.take(1) =~= seq![sign]);
    assert("^"@ =~= seq!['^'] && "~"@ =~= seq!['~']);
    assert("~>"@.len() == 2);
    assert(s.skip(1) =~= core);
    if sign == '^' {
        assert(text::begins(s, "^"@));
        assert(operator_of(s) == ("^"@, core));
    } else {
        assert(!text::begins(s, "^"@)) by {
            assert("^"@[0] == '^');
        }
        assert(text::begins(s, "~"@));
        assert(operator_of(s) == ("~"@, core));
        assert("~"@ != "^"@) by {
            assert("~"@[0] != "^"@[0]);
        }
    }
    let set = simple_of(s)->0;
    assert(simple_of(s) is Some);
    assert(set_in(Seq::empty()) == Some(Seq::<ComparatorModel>::empty()));
    assert(set_in(seq![s]) == Some(set)) by {
        assert(seq![s].skip(1) =~= Seq::empty());
        assert(set + Seq::empty() =~= set);
    }
    assert(set_of(s) == Some(set));
    let parts = seq![s];
    assert(parts.skip(1) =~= Seq::empty());
    assert(sets_in(Seq::empty()) == Some(Seq::<Seq<ComparatorModel>>::empty()));
    assert(sets_in(parts) == Some(seq![set])) by {
        assert(seq![set] + Seq::empty() =~= seq![set]);
    }
}

pub proof fn lemma_one_set(range: RangeModel, set: Seq<ComparatorModel>, v: VersionModel)
    requires
        range.sets == seq![set],
    ensures
        range_takes(range, v) == set_takes(set, v),
{
    assert(range.sets[0] == set);
}

/// What `^M.m.p` takes of the releases: from the named one on, those that agree
/// with it up to and with its first number that is not zero, or in all of them
/// where there is none.
pub proof fn caret_in_numbers(given: VersionModel, v: VersionModel)
    requires
        given.major < u64::MAX && given.minor < u64::MAX && given.patch < u64::MAX,
        v.prerelease.len() == 0,
    ensures
        range_of(seq!['^'] + core_text(given)) is Some,
        range_takes(range_of(seq!['^'] + core_text(given))->0, v) <==> if given.major > 0 {
            v.major == given.major && (v.minor > given.minor || (v.minor == given.minor && v.patch
                >= given.patch))
        } else if given.minor > 0 {
            v.major == 0 && v.minor == given.minor && v.patch >= given.patch
        } else {
            v.major == 0 && v.minor == 0 && v.patch == given.patch
        },
{
    let p = PartialModel {
        major: Some(given.major),
        minor: Some(given.minor),
        patch: Some(given.patch),
        prerelease: Seq::empty(),
        build: None,
    };
    lemma_signed_range('^', given);
    lemma_one_set(range_of(seq!['^'] + core_text(given))->0, caret_set(p), v);
    caret_keeps_the_leftmost_nonzero_part(p, v);
}

/// What `~M.m.p` takes of the releases: from the named one on, those of its minor
/// version.
pub proof fn tilde_in_numbers(given: VersionModel, v: VersionModel)
    requires
        given.major < u64::MAX && given.minor < u64::MAX,
        v.prerelease.len() == 0,
    ensures
        range_of(seq!['~'] + core_text(given)) is Some,
        range_takes(range_of(seq!['~'] + core_text(given))->0, v) <==> v.major == given.major
            && v.minor == given.minor && v.patch >= given.patch,
{
    let p = PartialModel {
        major: Some(given.major),
        minor: Some(given.minor),
        patch: Some(given.patch),
        prerelease: Seq::empty(),
        build: None,
    };
    lemma_signed_range('~', given);
    lemma_one_set(range_of(seq!['~'] + core_text(given))->0, tilde_set(p), v);
    tilde_keeps_the_named_line(p, v);
}

/// A partial version by itself is the whole line that it names.
pub proof fn equality_with_a_partial_is_the_line(p: PartialModel, v: VersionModel)
    requires
        p.major is Some && p.major->0 < u64::MAX,
        p.minor matches Some(minor) ==> minor < u64::MAX,
        exact_version(p) is None,
        v.prerelease.len() == 0,
    ensures
        set_takes(primitive_set(Op::Eq, p), v) <==> {
            &&& v.major == p.major->0
            &&& p.minor matches Some(minor) ==> v.minor == minor
        },
{
    lemma_between(
        release(p.major->0, or_zero(p.minor), 0),
        line_end(p.major->0, p.minor),
        v,
    );
}

/// `low - high` takes in both of its ends.
pub proof fn hyphen_takes_in_both_ends(low: PartialModel, high: PartialModel, v: VersionModel)
    requires
        low.major is Some,
        exact_version(high) is Some,
        v.prerelease.len() == 0,
    ensures
        set_takes(hyphen_set(low, high), v) <==> !version_before(v, least_version(low))
            && !version_before(exact_version(high)->0, v),
{
    let set = hyphen_set(low, high);
    assert(set.len() == 2);
    assert(set[0] == bound(Op::Gte, least_version(low)));
    assert(set[1] == bound(Op::Lte, exact_version(high)->0));
    if set_takes(set, v) {
        assert(within(set[0], v) && within(set[1], v));
    }
}

} // verus!
