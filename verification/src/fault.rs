//! Names of the fault points that the crash-safety suite parks a process at.
//!
//! Killing on a timer is a coin flip; instead each risky write path passes a
//! checkpoint, and when the environment names that point the process announces
//! itself and parks, so that it can be killed at exactly the interesting
//! instant. The points and their names are kept here; parking is the caller's.

use vstd::prelude::*;
use crate::text;

verus! {

/// Points in a write path where a kill is interesting.
#[derive(Clone, Copy, PartialEq, Eq, Debug, Structural)]
pub enum FaultPoint {
    /// Temp file partially written: bytes on disk, hash not yet known.
    CasMidWrite,
    /// Temp file written, fsynced, and hash-verified; rename not yet issued.
    CasBeforeRename,
    /// Memo record written to its temp file; rename not yet issued.
    MemoBeforeRename,
    /// Part of the tarball is on the wire; the rest is not.
    PmMidDownload,
    /// The tarball is here, but nothing of it was verified.
    PmBeforeVerify,
    /// Some files of the tarball are in the CAS, others are not.
    PmMidExtract,
    /// Some files of a package are linked, others are not.
    PmMidLink,
    /// Some packages are linked, others are not.
    PmBetweenPackages,
    /// Lockfile written to its temp file; rename not yet issued.
    PmBeforeLockfileRename,
}

/// How a point is called.
pub open spec fn fault_name(point: FaultPoint) -> Seq<char> {
    match point {
        FaultPoint::CasMidWrite => "cas-mid-write"@,
        FaultPoint::CasBeforeRename => "cas-before-rename"@,
        FaultPoint::MemoBeforeRename => "memo-before-rename"@,
        FaultPoint::PmMidDownload => "pm-mid-download"@,
        FaultPoint::PmBeforeVerify => "pm-before-verify"@,
        FaultPoint::PmMidExtract => "pm-mid-extract"@,
        FaultPoint::PmMidLink => "pm-mid-link"@,
        FaultPoint::PmBetweenPackages => "pm-between-packages"@,
        FaultPoint::PmBeforeLockfileRename => "pm-before-lockfile-rename"@,
    }
}

/// No two points share a name.
pub proof fn fault_names_are_distinct(a: FaultPoint, b: FaultPoint)
    requires
        fault_name(a) == fault_name(b),
    ensures
        a == b,
{
    reveal_strlit("cas-mid-write");
    reveal_strlit("cas-before-rename");
    reveal_strlit("memo-before-rename");
    reveal_strlit("pm-mid-download");
    reveal_strlit("pm-before-verify");
    reveal_strlit("pm-mid-extract");
    reveal_strlit("pm-mid-link");
    reveal_strlit("pm-between-packages");
    reveal_strlit("pm-before-lockfile-rename");
    // Lengths tell most names apart, and a single character the others.
    assert("cas-mid-write"@.len() == 13 && "cas-before-rename"@.len() == 17);
    assert("memo-before-rename"@.len() == 18 && "pm-mid-download"@.len() == 15);
    assert("pm-before-verify"@.len() == 16 && "pm-mid-extract"@.len() == 14);
    assert("pm-mid-link"@.len() == 11 && "pm-between-packages"@.len() == 19);
    assert("pm-before-lockfile-rename"@.len() == 25);
}

impl FaultPoint {
    /// How the point is called.
    pub fn name(self) -> (r: &'static str)
        ensures
            r@ == fault_name(self),
    {
        match self {
            FaultPoint::CasMidWrite => "cas-mid-write",
            FaultPoint::CasBeforeRename => "cas-before-rename",
            FaultPoint::MemoBeforeRename => "memo-before-rename",
            FaultPoint::PmMidDownload => "pm-mid-download",
            FaultPoint::PmBeforeVerify => "pm-before-verify",
            FaultPoint::PmMidExtract => "pm-mid-extract",
            FaultPoint::PmMidLink => "pm-mid-link",
            FaultPoint::PmBetweenPackages => "pm-between-packages",
            FaultPoint::PmBeforeLockfileRename => "pm-before-lockfile-rename",
        }
    }

    /// The point with a name; `parse` undoes `name`.
    pub fn parse(name: &str) -> (r: Option<Self>)
        ensures
            match r {
                Some(point) => fault_name(point) == name@,
                None => forall|point: FaultPoint| #[trigger] fault_name(point) != name@,
            },
            forall|point: FaultPoint| #[trigger] fault_name(point) == name@ ==> r == Some(point),
    {
        proof {
            assert forall|a: FaultPoint, b: FaultPoint| #[trigger] fault_name(a) == name@
                && #[trigger] fault_name(b) == name@ implies a == b by {
                fault_names_are_distinct(a, b);
            }
        }
        if text::same_text(name, "cas-mid-write") {
            let r = FaultPoint::CasMidWrite;
            assert(fault_name(r) == name@);
            Some(r)
        } else if text::same_text(name, "cas-before-rename") {
            let r = FaultPoint::CasBeforeRename;
            assert(fault_name(r) == name@);
            Some(r)
        } else if text::same_text(name, "memo-before-rename") {
            let r = FaultPoint::MemoBeforeRename;
            assert(fault_name(r) == name@);
            Some(r)
        } else if text::same_text(name, "pm-mid-download") {
            let r = FaultPoint::PmMidDownload;
            assert(fault_name(r) == name@);
            Some(r)
        } else if text::same_text(name, "pm-before-verify") {
            let r = FaultPoint::PmBeforeVerify;
            assert(fault_name(r) == name@);
            Some(r)
        } else if text::same_text(name, "pm-mid-extract") {
            let r = FaultPoint::PmMidExtract;
            assert(fault_name(r) == name@);
            Some(r)
        } else if text::same_text(name, "pm-mid-link") {
            let r = FaultPoint::PmMidLink;
            assert(fault_name(r) == name@);
            Some(r)
        } else if text::same_text(name, "pm-between-packages") {
            let r = FaultPoint::PmBetweenPackages;
            assert(fault_name(r) == name@);
            Some(r)
        } else if text::same_text(name, "pm-before-lockfile-rename") {
            let r = FaultPoint::PmBeforeLockfileRename;
            assert(fault_name(r) == name@);
            Some(r)
        } else {
            None
        }
    }
}

} // verus!
