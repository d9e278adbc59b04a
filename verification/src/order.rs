//! One total order for everything that is kept sorted.
//!
//! A value is ordered by its rank, a sequence of integers read
//! lexicographically. Names rank by their code points, versions by their
//! numbers, and a compound key by the ranks of its parts put end to end. The
//! order laws are proved once, here, and every sorted collection rests on them.

use vstd::prelude::*;
use crate::text;

verus! {

/// Lexicographic order: the first difference decides, and a proper prefix
/// comes first.
pub open spec fn precedes(a: Seq<int>, b: Seq<int>) -> bool
    decreases a.len(),
{
    if b.len() == 0 {
        false
    } else if a.len() == 0 {
        true
    } else if a[0] != b[0] {
        a[0] < b[0]
    } else {
        precedes(a.skip(1), b.skip(1))
    }
}

/// Nothing precedes itself.
pub proof fn lemma_irreflexive(a: Seq<int>)
    ensures
        !precedes(a, a),
    decreases a.len(),
{
    if a.len() > 0 {
        lemma_irreflexive(a.skip(1));
    }
}

/// The order is transitive.
pub proof fn lemma_transitive(a: Seq<int>, b: Seq<int>, c: Seq<int>)
    requires
        precedes(a, b),
        precedes(b, c),
    ensures
        precedes(a, c),
    decreases a.len(),
{
    if a.len() > 0 && b.len() > 0 && c.len() > 0 && a[0] == b[0] && b[0] == c[0] {
        lemma_transitive(a.skip(1), b.skip(1), c.skip(1));
    }
}

/// Any two ranks are equal or one precedes the other.
pub proof fn lemma_total(a: Seq<int>, b: Seq<int>)
    ensures
        a == b || precedes(a, b) || precedes(b, a),
    decreases a.len(),
{
    if a.len() == 0 && b.len() == 0 {
        assert(a =~= b);
    } else if a.len() > 0 && b.len() > 0 && a[0] == b[0] {
        lemma_total(a.skip(1), b.skip(1));
        if a.skip(1) == b.skip(1) {
            assert(a =~= seq![a[0]] + a.skip(1));
            assert(b =~= seq![b[0]] + b.skip(1));
        }
    }
}

/// At most one of two ranks precedes the other.
pub proof fn lemma_asymmetric(a: Seq<int>, b: Seq<int>)
    requires
        precedes(a, b),
    ensures
        !precedes(b, a),
        a != b,
{
    if precedes(b, a) {
        lemma_transitive(a, b, a);
    }
    lemma_irreflexive(a);
}

/// A common beginning does not matter.
pub proof fn lemma_common_prefix(p: Seq<int>, a: Seq<int>, b: Seq<int>)
    ensures
        precedes(p + a, p + b) == precedes(a, b),
    decreases p.len(),
{
    if p.len() == 0 {
        assert(p + a =~= a);
        assert(p + b =~= b);
    } else {
        assert((p + a).skip(1) =~= p.skip(1) + a);
        assert((p + b).skip(1) =~= p.skip(1) + b);
        lemma_common_prefix(p.skip(1), a, b);
    }
}

/// How one value stands to another.
#[derive(Clone, Copy, Debug, PartialEq, Eq, Structural)]
pub enum Order {
    Less,
    Equal,
    Greater,
}

impl Order {
    /// Whether this is how `a` stands to `b`.
    pub open spec fn holds(self, a: Seq<int>, b: Seq<int>) -> bool {
        match self {
            Order::Less => precedes(a, b),
            Order::Equal => a == b,
            Order::Greater => precedes(b, a),
        }
    }
}

/// At most one order holds of two ranks.
pub proof fn lemma_order_unique(a: Seq<int>, b: Seq<int>)
    ensures
        precedes(a, b) ==> !precedes(b, a) && a != b,
        precedes(b, a) ==> a != b,
        !precedes(a, b) && !precedes(b, a) ==> a == b,
{
    lemma_total(a, b);
    if precedes(a, b) {
        lemma_asymmetric(a, b);
    }
    if precedes(b, a) {
        lemma_asymmetric(b, a);
    }
}

/// A mathematical value with a place in the order.
pub trait Rank: Sized {
    spec fn rank(self) -> Seq<int>;
}

/// A value that can be compared by the rank of its view.
pub trait Ranked: View + Sized where <Self as View>::V: Rank {
    fn compare(&self, other: &Self) -> (r: Order)
        ensures
            r.holds(self@.rank(), other@.rank()),
    ;
}

impl Rank for Seq<char> {
    open spec fn rank(self) -> Seq<int> {
        text_rank(self)
    }
}

/// Text is ordered by code point, which is also the order of its UTF-8 bytes.
pub open spec fn text_rank(s: Seq<char>) -> Seq<int> {
    s.map_values(|c: char| c as int)
}

/// Different texts have different ranks.
pub proof fn lemma_text_rank_injective(a: Seq<char>, b: Seq<char>)
    ensures
        text_rank(a) == text_rank(b) <==> a == b,
{
    if text_rank(a) == text_rank(b) {
        assert(text_rank(a).len() == a.len());
        assert(text_rank(b).len() == b.len());
        assert forall|i: int| 0 <= i < a.len() implies a[i] == b[i] by {
            assert(text_rank(a)[i] == text_rank(b)[i]);
        }
        assert(a =~= b);
    }
}

/// Compares two runs of characters by code point.
pub fn compare_chars(a: &[char], b: &[char]) -> (r: Order)
    ensures
        r.holds(text_rank(a@), text_rank(b@)),
        r is Equal <==> a@ == b@,
        r is Less <==> precedes(text_rank(a@), text_rank(b@)),
{
    let ghost ra = text_rank(a@);
    let ghost rb = text_rank(b@);
    proof {
        lemma_text_rank_injective(a@, b@);
        lemma_order_unique(ra, rb);
    }
    let mut i: usize = 0;
    assert(ra.skip(0) =~= ra);
    assert(rb.skip(0) =~= rb);
    while i < a.len() && i < b.len()
        invariant
            i <= a@.len(),
            i <= b@.len(),
            ra == text_rank(a@),
            rb == text_rank(b@),
            precedes(ra, rb) == precedes(ra.skip(i as int), rb.skip(i as int)),
            precedes(rb, ra) == precedes(rb.skip(i as int), ra.skip(i as int)),
            forall|j: int| 0 <= j < i ==> a@[j] == b@[j],
            a@ == b@ <==> ra == rb,
            precedes(ra, rb) ==> !precedes(rb, ra) && ra != rb,
            precedes(rb, ra) ==> ra != rb,
        decreases a@.len() - i,
    {
        if a[i] != b[i] {
            if a[i] < b[i] {
                return Order::Less;
            } else {
                return Order::Greater;
            }
        }
        assert(ra.skip(i as int).skip(1) =~= ra.skip(i + 1));
        assert(rb.skip(i as int).skip(1) =~= rb.skip(i + 1));
        i += 1;
    }
    if a.len() < b.len() {
        Order::Less
    } else if b.len() < a.len() {
        Order::Greater
    } else {
        assert(a@ =~= b@);
        Order::Equal
    }
}

/// Compares two strings by code point.
pub fn compare_text(a: &str, b: &str) -> (r: Order)
    ensures
        r.holds(text_rank(a@), text_rank(b@)),
        r is Equal <==> a@ == b@,
        r is Less <==> precedes(text_rank(a@), text_rank(b@)),
{
    let left = text::chars_of(a);
    let right = text::chars_of(b);
    compare_chars(&left, &right)
}

impl Ranked for String {
    fn compare(&self, other: &Self) -> (r: Order) {
        compare_text(self.as_str(), other.as_str())
    }
}

// ---------------------------------------------------------------------------
// Compound keys.

/// A text as one part of a compound rank: it is closed by a zero, so that
/// whatever follows is looked at only between equal texts.
pub open spec fn closed_text(s: Seq<char>) -> Seq<int> {
    s.map_values(|c: char| c as int + 1).push(0)
}

/// Code points are not negative.
pub proof fn lemma_char_bounds(c: char)
    ensures
        0 <= c as int <= 0x10ffff,
{
}

/// A compound rank goes by its text first, and by what follows second.
pub proof fn lemma_closed_text(a: Seq<char>, b: Seq<char>, x: Seq<int>, y: Seq<int>)
    ensures
        precedes(closed_text(a) + x, closed_text(b) + y) <==> precedes(text_rank(a), text_rank(b))
            || (a == b && precedes(x, y)),
        closed_text(a) + x == closed_text(b) + y <==> a == b && x == y,
    decreases a.len(),
{
    let p = closed_text(a) + x;
    let q = closed_text(b) + y;
    let ra = text_rank(a);
    let rb = text_rank(b);
    assert(ra.len() == a.len() && rb.len() == b.len());
    assert(p.len() == a.len() + 1 + x.len() && q.len() == b.len() + 1 + y.len());
    assert(a.len() == 0 ==> p[0] == 0);
    assert(b.len() == 0 ==> q[0] == 0);
    assert(a.len() > 0 ==> p[0] == a[0] as int + 1 && ra[0] == a[0] as int);
    assert(b.len() > 0 ==> q[0] == b[0] as int + 1 && rb[0] == b[0] as int);
    if a.len() == 0 && b.len() == 0 {
        assert(a =~= b);
        assert(p =~= seq![0int] + x);
        assert(q =~= seq![0int] + y);
        lemma_common_prefix(seq![0int], x, y);
        assert(p.skip(1) =~= x);
        assert(q.skip(1) =~= y);
    } else if a.len() > 0 && b.len() > 0 && a[0] == b[0] {
        let a1 = a.skip(1);
        let b1 = b.skip(1);
        assert(p.skip(1) =~= closed_text(a1) + x);
        assert(q.skip(1) =~= closed_text(b1) + y);
        assert(ra.skip(1) =~= text_rank(a1));
        assert(rb.skip(1) =~= text_rank(b1));
        lemma_closed_text(a1, b1, x, y);
        assert(a =~= seq![a[0]] + a1);
        assert(b =~= seq![b[0]] + b1);
        assert(p =~= seq![p[0]] + p.skip(1));
        assert(q =~= seq![q[0]] + q.skip(1));
        assert(a == b <==> a1 == b1);
        assert(p == q <==> p.skip(1) == q.skip(1));
    } else {
        if a.len() > 0 {
            lemma_char_bounds(a[0]);
        }
        if b.len() > 0 {
            lemma_char_bounds(b[0]);
        }
        assert(p[0] != q[0]);
        assert(a != b);
        assert(p != q);
    }
}

} // verus!
