//! Paths of the operating system, as text.
//!
//! The store and the caches name files by native paths. They are joined here
//! and sorted here; opening them is the caller's.

use vstd::prelude::*;
use crate::order::{Order, Rank, Ranked};
use crate::{order, text};

verus! {

/// A native path.
#[derive(PartialEq, Eq, Debug)]
pub struct NativePath {
    pub path: String,
}

/// What a `NativePath` stands for.
#[verifier::ext_equal]
pub struct NativePathModel {
    pub path: Seq<char>,
}

impl View for NativePath {
    type V = NativePathModel;

    open spec fn view(&self) -> NativePathModel {
        NativePathModel { path: self.path@ }
    }
}

impl Clone for NativePath {
    fn clone(&self) -> (r: Self)
        ensures
            r@ == self@,
    {
        NativePath { path: self.path.clone() }
    }
}

/// The place of a character: the separator comes before everything else, so
/// that paths are ordered segment by segment.
pub open spec fn separator_first(c: char) -> int {
    if c == '/' {
        0
    } else {
        c as int + 1
    }
}

/// Rank of a native path.
pub open spec fn native_rank(s: Seq<char>) -> Seq<int> {
    s.map_values(|c: char| separator_first(c))
}

impl Rank for NativePathModel {
    open spec fn rank(self) -> Seq<int> {
        native_rank(self.path)
    }
}

impl Ranked for NativePath {
    fn compare(&self, other: &Self) -> (r: Order) {
        let left = text::chars_of(self.path.as_str());
        let right = text::chars_of(other.path.as_str());
        let ghost a = native_rank(left@);
        let ghost b = native_rank(right@);
        let mut i: usize = 0;
        assert(a.skip(0) =~= a);
        assert(b.skip(0) =~= b);
        while i < left.len() && i < right.len()
            invariant
                i <= left@.len(),
                i <= right@.len(),
                a == native_rank(left@),
                b == native_rank(right@),
                left@ == self.path@,
                right@ == other.path@,
                order::precedes(a, b) == order::precedes(a.skip(i as int), b.skip(i as int)),
                order::precedes(b, a) == order::precedes(b.skip(i as int), a.skip(i as int)),
                forall|j: int| 0 <= j < i ==> left@[j] == right@[j],
            decreases left@.len() - i,
        {
            let (x, y) = (left[i], right[i]);
            proof {
                order::lemma_char_bounds(x);
                order::lemma_char_bounds(y);
                assert(a.skip(i as int)[0] == separator_first(left@[i as int]));
                assert(b.skip(i as int)[0] == separator_first(right@[i as int]));
            }
            if x != y {
                if x == '/' {
                    return Order::Less;
                }
                if y == '/' {
                    return Order::Greater;
                }
                return if x < y {
                    Order::Less
                } else {
                    Order::Greater
                };
            }
            assert(a.skip(i as int).skip(1) =~= a.skip(i + 1));
            assert(b.skip(i as int).skip(1) =~= b.skip(i + 1));
            i += 1;
        }
        if left.len() < right.len() {
            Order::Less
        } else if right.len() < left.len() {
            Order::Greater
        } else {
            assert(left@ =~= right@);
            Order::Equal
        }
    }
}

/// A name below a base; an absolute name replaces the base.
pub open spec fn joined_native(base: Seq<char>, name: Seq<char>) -> Seq<char> {
    if name.len() > 0 && name[0] == '/' {
        name
    } else if base.len() == 0 || base.last() == '/' {
        base + name
    } else {
        base + seq!['/'] + name
    }
}

/// A name below a base.
pub fn join(base: &str, name: &str) -> (r: String)
    ensures
        r@ == joined_native(base@, name@),
{
    let given = text::chars_of(name);
    if given.len() > 0 && given[0] == '/' {
        return name.to_string();
    }
    let mut out = text::chars_of(base);
    if out.len() > 0 && out[out.len() - 1] != '/' {
        out.push('/');
    }
    text::append(&mut out, &given);
    assert(out@ =~= joined_native(base@, name@));
    text::string_of(&out)
}

/// A relative name below a directory has one separator between the two, whether or not
/// the directory ends with one. An absolute name is taken as it is.
pub proof fn native_names_stand_below(base: Seq<char>, name: Seq<char>)
    requires
        base.len() > 0,
    ensures
        (name.len() == 0 || name[0] != '/') && base.last() != '/' ==> joined_native(base, name)
            == base + seq!['/'] + name && joined_native(base + seq!['/'], name) == base
            + seq!['/'] + name,
        name.len() > 0 && name[0] == '/' ==> joined_native(base, name) == name,
{
}

/// Different paths have different places.
pub proof fn lemma_native_rank_injective(a: Seq<char>, b: Seq<char>)
    ensures
        native_rank(a) == native_rank(b) <==> a == b,
{
    if native_rank(a) == native_rank(b) {
        assert(native_rank(a).len() == a.len() && native_rank(b).len() == b.len());
        assert forall|i: int| 0 <= i < a.len() implies a[i] == b[i] by {
            assert(native_rank(a)[i] == separator_first(a[i]));
            assert(native_rank(b)[i] == separator_first(b[i]));
            order::lemma_char_bounds(a[i]);
            order::lemma_char_bounds(b[i]);
        }
        assert(a =~= b);
    }
}

/// Native paths go segment by segment: what lies in a directory comes right behind it,
/// before everything whose name only begins like the directory's; else the first
/// character that differs decides.
pub proof fn native_paths_go_by_segments(shared: Seq<char>, x: Seq<char>, y: Seq<char>)
    requires
        x.len() > 0,
        y.len() > 0,
        x[0] != y[0],
    ensures
        order::precedes(native_rank(shared + x), native_rank(shared + y)) <==> x[0] == '/' || (y[0]
            != '/' && x[0] < y[0]),
        order::precedes(native_rank(shared), native_rank(shared + x)),
{
    let p = native_rank(shared);
    let a = native_rank(x);
    let b = native_rank(y);
    assert(native_rank(shared + x) =~= p + a);
    assert(native_rank(shared + y) =~= p + b);
    assert(p + Seq::empty() =~= p);
    order::lemma_common_prefix(p, a, b);
    order::lemma_common_prefix(p, Seq::empty(), a);
    order::lemma_char_bounds(x[0]);
    order::lemma_char_bounds(y[0]);
    assert(a[0] == separator_first(x[0]) && b[0] == separator_first(y[0]));
}

} // verus!
