//! The two advisory locks that are taken.
//!
//! **Per project** (`node_modules/.opal-lock`, exclusive): two installs against
//! one project serialize rather than interleave writes.
//!
//! **Per cache** (`<cache>/.opal-cache-lock`, shared by installs, exclusive by
//! collection): an install holds it shared for its whole run, so any number of
//! installs proceed together, since they only ever add content-addressed
//! objects, which cannot conflict, while a collection takes it exclusively and
//! therefore runs only when nothing is writing. Without it, a collection can
//! mark, then sweep an object an install created in between.
//!
//! Lock ordering is always project first, then cache, and collection takes only
//! the cache lock. Nothing can therefore wait on a lock while holding one the
//! other side needs.

use vstd::prelude::*;
use crate::native;

verus! {

/// How a lock is held.
#[derive(Clone, Copy, PartialEq, Eq, Debug, Structural)]
pub enum Mode {
    Shared,
    Exclusive,
}

/// Where the lock of a project is: inside `node_modules`, so that it travels with
/// the tree it guards.
pub fn install_lock_path(node_modules: &str) -> (r: String)
    ensures
        r@ == native::joined_native(node_modules@, ".opal-lock"@),
{
    native::join(node_modules, ".opal-lock")
}

/// Where the lock of a cache is: at its root, guarding every object in it.
pub fn cache_lock_path(cache_root: &str) -> (r: String)
    ensures
        r@ == native::joined_native(cache_root@, ".opal-cache-lock"@),
{
    native::join(cache_root, ".opal-cache-lock")
}

} // verus!
