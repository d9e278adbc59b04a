//! Mark-and-sweep garbage collection for the store.
//!
//! Marking is the caller's job: it passes the set of hashes something still
//! points at. Sweeping is everything else, plus temp files old enough that no
//! live process could still be writing them.
//!
//! Collection has no lock of its own, so it runs when no other process is
//! writing to the same cache. The temp-file age threshold is the guard that
//! keeps a concurrent write from having its in-flight temp file swept.

use vstd::prelude::*;
use crate::hash::ContentHash;
use crate::sorted::SortedMap;
use crate::sorted;

verus! {

/// How long an orphaned temp file must sit untouched before it is swept, in
/// nanoseconds: one hour.
pub const DEFAULT_TEMP_MAX_AGE: u128 = 3_600_000_000_000;

/// How to collect.
#[derive(Clone, Copy, Debug)]
pub struct GcOptions {
    /// Report what would be removed without removing it.
    pub dry_run: bool,
    /// Temp files younger than this, in nanoseconds, are left alone: another
    /// process may still be writing them.
    ///
    /// This goes by the filesystem timestamp, which never determines whether
    /// content is fresh, only whether an in-flight write might still be in
    /// progress. Content hashes remain the only input to invalidation.
    pub temp_max_age: u128,
    /// Re-hash surviving objects and remove any that fail. Off by default; this
    /// is a full read of the store.
    pub verify: bool,
}

impl Default for GcOptions {
    fn default() -> (r: Self)
        ensures
            !r.dry_run,
            r.temp_max_age == DEFAULT_TEMP_MAX_AGE,
            !r.verify,
    {
        GcOptions { dry_run: false, temp_max_age: DEFAULT_TEMP_MAX_AGE, verify: false }
    }
}

/// What a collection did.
#[derive(Debug, PartialEq, Eq)]
pub struct GcReport {
    pub objects_scanned: usize,
    pub objects_removed: usize,
    pub bytes_reclaimed: u64,
    pub corrupt_removed: usize,
    pub temp_files_removed: usize,
    pub temp_files_kept: usize,
}

impl Default for GcReport {
    fn default() -> (r: Self)
        ensures
            r.objects_scanned == 0 && r.objects_removed == 0 && r.bytes_reclaimed == 0,
            r.corrupt_removed == 0 && r.temp_files_removed == 0 && r.temp_files_kept == 0,
    {
        GcReport {
            objects_scanned: 0,
            objects_removed: 0,
            bytes_reclaimed: 0,
            corrupt_removed: 0,
            temp_files_removed: 0,
            temp_files_kept: 0,
        }
    }
}

/// An object of the store as the collector sees it.
#[derive(PartialEq, Eq, Clone, Copy, Debug)]
pub struct Candidate {
    pub hash: ContentHash,
    /// Its content was read and does not hash to its key.
    pub mismatched: bool,
    /// Its size, zero where it cannot be told.
    pub size: u64,
}

/// The hashes that something still points at.
pub type Live = SortedMap<ContentHash, ()>;

/// Whether an object counts as corrupt: only where verifying was asked for.
pub open spec fn is_corrupt(c: Candidate, options: GcOptions) -> bool {
    options.verify && c.mismatched
}

/// Whether an object is swept: nothing points at it, or it is corrupt.
pub open spec fn is_swept(c: Candidate, live: Seq<(Seq<u8>, ())>, options: GcOptions) -> bool {
    !sorted::holds(live, c.hash@) || is_corrupt(c, options)
}

/// The objects that are swept, in order.
pub open spec fn swept(
    list: Seq<Candidate>,
    live: Seq<(Seq<u8>, ())>,
    options: GcOptions,
) -> Seq<Candidate>
    decreases list.len(),
{
    if list.len() == 0 {
        Seq::empty()
    } else {
        let front = swept(list.drop_last(), live, options);
        if is_swept(list.last(), live, options) {
            front.push(list.last())
        } else {
            front
        }
    }
}

/// The sizes of objects, added up.
pub open spec fn sizes(list: Seq<Candidate>) -> nat
    decreases list.len(),
{
    if list.len() == 0 {
        0
    } else {
        sizes(list.drop_last()) + list.last().size as nat
    }
}

/// How many of the objects are corrupt.
pub open spec fn corrupt_count(list: Seq<Candidate>, options: GcOptions) -> nat
    decreases list.len(),
{
    if list.len() == 0 {
        0
    } else {
        corrupt_count(list.drop_last(), options) + if is_corrupt(list.last(), options) {
            1nat
        } else {
            0nat
        }
    }
}

/// Which temp files are old enough to be swept, by position.
pub open spec fn stale(ages: Seq<u128>, options: GcOptions) -> Seq<usize>
    decreases ages.len(),
{
    if ages.len() == 0 {
        Seq::empty()
    } else {
        let front = stale(ages.drop_last(), options);
        if ages.last() < options.temp_max_age {
            front
        } else {
            front.push((ages.len() - 1) as usize)
        }
    }
}

/// What a collection is to do, and what it will report.
#[derive(Debug)]
pub struct Sweep {
    pub report: GcReport,
    /// The objects to remove, in order; none on a dry run.
    pub objects: Vec<ContentHash>,
    /// The positions of the temp files to remove, in order; none on a dry run.
    pub temp_files: Vec<usize>,
}

proof fn lemma_swept_bounds(list: Seq<Candidate>, live: Seq<(Seq<u8>, ())>, options: GcOptions)
    ensures
        swept(list, live, options).len() <= list.len(),
        sizes(swept(list, live, options)) <= sizes(list),
        corrupt_count(swept(list, live, options), options) <= list.len(),
    decreases list.len(),
{
    if list.len() > 0 {
        let front = list.drop_last();
        lemma_swept_bounds(front, live, options);
        let before = swept(front, live, options);
        if is_swept(list.last(), live, options) {
            assert(swept(list, live, options).drop_last() =~= before);
        }
    }
}

proof fn lemma_sizes_grow(list: Seq<Candidate>, n: int)
    requires
        0 <= n <= list.len(),
    ensures
        sizes(list.take(n)) <= sizes(list),
    decreases list.len() - n,
{
    if n == list.len() {
        assert(list.take(n) =~= list);
    } else {
        assert(list.take(n + 1).drop_last() =~= list.take(n));
        lemma_sizes_grow(list, n + 1);
    }
}

/// The keys of objects.
pub open spec fn keys(list: Seq<Candidate>) -> Seq<Seq<u8>> {
    list.map_values(|c: Candidate| c.hash@)
}

/// Decides what a collection removes: objects outside `live`, then stale temp
/// files.
pub fn collect(
    candidates: &Vec<Candidate>,
    live: &Live,
    ages: &Vec<u128>,
    options: &GcOptions,
) -> (r: Sweep)
    requires
        sizes(candidates@) <= u64::MAX,
    ensures
        ({
            let gone = swept(candidates@, live@, *options);
            let old = stale(ages@, *options);
            &&& r.report.objects_scanned == candidates@.len()
            &&& r.report.objects_removed == gone.len()
            &&& r.report.bytes_reclaimed == sizes(gone)
            &&& r.report.corrupt_removed == corrupt_count(gone, *options)
            &&& r.report.temp_files_removed == old.len()
            &&& r.report.temp_files_kept == ages@.len() - old.len()
            &&& sorted::list_views(r.objects@) == if options.dry_run {
                Seq::empty()
            } else {
                keys(gone)
            }
            &&& r.temp_files@ == if options.dry_run {
                Seq::empty()
            } else {
                old
            }
        }),
{
    let mut report: GcReport = Default::default();
    let mut objects: Vec<ContentHash> = Vec::new();
    let mut i: usize = 0;
    proof {
        assert(sorted::list_views(objects@) =~= Seq::empty());
        assert(keys(Seq::<Candidate>::empty()) =~= Seq::empty());
    }
    while i < candidates.len()
        invariant
            i <= candidates@.len(),
            sizes(candidates@) <= u64::MAX,
            ({
                let gone = swept(candidates@.take(i as int), live@, *options);
                &&& report.objects_scanned == i
                &&& report.objects_removed == gone.len()
                &&& report.bytes_reclaimed == sizes(gone)
                &&& report.corrupt_removed == corrupt_count(gone, *options)
                &&& report.temp_files_removed == 0
                &&& report.temp_files_kept == 0
                &&& sorted::list_views(objects@) == if options.dry_run {
                    Seq::empty()
                } else {
                    keys(gone)
                }
            }),
        decreases candidates@.len() - i,
    {
        let one = candidates[i];
        let ghost before = swept(candidates@.take(i as int), live@, *options);
        let ghost listed = sorted::list_views(objects@);
        proof {
            assert(candidates@.take(i + 1).drop_last() =~= candidates@.take(i as int));
            lemma_swept_bounds(candidates@.take(i + 1), live@, *options);
            lemma_swept_bounds(candidates@.take(i as int), live@, *options);
            lemma_sizes_grow(candidates@, i + 1);
            lemma_sizes_grow(candidates@, i as int);
        }
        report.objects_scanned = report.objects_scanned + 1;
        let corrupt = options.verify && one.mismatched;
        if !live.contains_key(&one.hash) || corrupt {
            proof {
                let gone = swept(candidates@.take(i + 1), live@, *options);
                assert(gone == before.push(one));
                assert(gone.drop_last() =~= before);
                assert(keys(gone) =~= keys(before).push(one.hash@));
                assert(sizes(gone) == sizes(before) + one.size);
            }
            report.objects_removed = report.objects_removed + 1;
            report.bytes_reclaimed = report.bytes_reclaimed + one.size;
            if corrupt {
                report.corrupt_removed = report.corrupt_removed + 1;
            }
            if !options.dry_run {
                objects.push(one.hash);
                assert(sorted::list_views(objects@) =~= listed.push(one.hash@));
            }
        }
        i += 1;
    }
    assert(candidates@.take(i as int) =~= candidates@);
    let mut temp_files: Vec<usize> = Vec::new();
    let mut k: usize = 0;
    while k < ages.len()
        invariant
            k <= ages@.len(),
            ({
                let gone = swept(candidates@, live@, *options);
                let old = stale(ages@.take(k as int), *options);
                &&& report.objects_scanned == candidates@.len()
                &&& report.objects_removed == gone.len()
                &&& report.bytes_reclaimed == sizes(gone)
                &&& report.corrupt_removed == corrupt_count(gone, *options)
                &&& old.len() <= k
                &&& report.temp_files_removed == old.len()
                &&& report.temp_files_kept == k - old.len()
                &&& temp_files@ == if options.dry_run {
                    Seq::empty()
                } else {
                    old
                }
            }),
        decreases ages@.len() - k,
    {
        assert(ages@.take(k + 1).drop_last() =~= ages@.take(k as int));
        if ages[k] < options.temp_max_age {
            report.temp_files_kept = report.temp_files_kept + 1;
        } else {
            if !options.dry_run {
                temp_files.push(k);
            }
            report.temp_files_removed = report.temp_files_removed + 1;
        }
        k += 1;
    }
    assert(ages@.take(k as int) =~= ages@);
    Sweep { report, objects, temp_files }
}

/// What something points at is never swept, unless verifying was asked for and
/// its content is not what its key says.
pub proof fn live_objects_survive(
    list: Seq<Candidate>,
    live: Seq<(Seq<u8>, ())>,
    options: GcOptions,
    c: Candidate,
)
    requires
        sorted::holds(live, c.hash@),
        !is_corrupt(c, options),
    ensures
        !swept(list, live, options).contains(c),
    decreases list.len(),
{
    let gone = swept(list, live, options);
    if list.len() > 0 {
        live_objects_survive(list.drop_last(), live, options, c);
        if gone.contains(c) {
            let k = choose|k: int| 0 <= k < gone.len() && gone[k] == c;
            let front = swept(list.drop_last(), live, options);
            if k < front.len() {
                assert(front[k] == c);
                assert(front.contains(c));
            }
        }
    }
}

/// Everything that nothing points at is swept.
pub proof fn unreferenced_objects_go(
    list: Seq<Candidate>,
    live: Seq<(Seq<u8>, ())>,
    options: GcOptions,
    i: int,
)
    requires
        0 <= i < list.len(),
        !sorted::holds(live, list[i].hash@),
    ensures
        swept(list, live, options).contains(list[i]),
    decreases list.len(),
{
    let gone = swept(list, live, options);
    let front = swept(list.drop_last(), live, options);
    if i == list.len() - 1 {
        assert(gone[gone.len() - 1] == list[i]);
    } else {
        unreferenced_objects_go(list.drop_last(), live, options, i);
        assert(list.drop_last()[i] == list[i]);
        let k = choose|k: int| 0 <= k < front.len() && front[k] == list[i];
        assert(gone[k] == list[i]);
    }
}

/// Whether a collection takes an object: nothing points at it, or verifying was asked
/// for and its content is not what its key says.
pub open spec fn is_taken(c: Candidate, live: Seq<(Seq<u8>, ())>, options: GcOptions) -> bool {
    !sorted::holds(live, c.hash@) || options.verify && c.mismatched
}

/// A collection takes every object that nothing points at and, where verifying was asked
/// for, every one whose content is not what its key says; it takes nothing else.
pub proof fn collections_take_what_is_dead_or_corrupt(
    list: Seq<Candidate>,
    live: Seq<(Seq<u8>, ())>,
    options: GcOptions,
    c: Candidate,
)
    ensures
        swept(list, live, options).contains(c) <==> list.contains(c) && is_taken(c, live, options),
    decreases list.len(),
{
    let gone = swept(list, live, options);
    if list.len() > 0 {
        let rest = list.drop_last();
        let front = swept(rest, live, options);
        collections_take_what_is_dead_or_corrupt(rest, live, options, c);
        if gone.contains(c) {
            let k = choose|k: int| 0 <= k < gone.len() && gone[k] == c;
            if k < front.len() {
                assert(front[k] == c);
                let i = choose|i: int| 0 <= i < rest.len() && rest[i] == c;
                assert(list[i] == c);
            } else {
                assert(list[list.len() - 1] == c);
            }
        }
        if list.contains(c) && is_taken(c, live, options) {
            let i = choose|i: int| 0 <= i < list.len() && list[i] == c;
            if i < rest.len() {
                assert(rest[i] == c);
                let k = choose|k: int| 0 <= k < front.len() && front[k] == c;
                assert(gone[k] == c);
            } else {
                assert(gone[gone.len() - 1] == c);
            }
        }
    }
}

/// A temp file goes once it is as old as the threshold, and stays as long as it is
/// younger: another process may still be writing it.
pub proof fn only_old_temp_files_go(ages: Seq<u128>, options: GcOptions, k: usize)
    requires
        ages.len() <= usize::MAX,
    ensures
        stale(ages, options).contains(k) <==> k < ages.len() && ages[k as int]
            >= options.temp_max_age,
    decreases ages.len(),
{
    let all = stale(ages, options);
    if ages.len() > 0 {
        let rest = ages.drop_last();
        let front = stale(rest, options);
        only_old_temp_files_go(rest, options, k);
        if all.contains(k) {
            let j = choose|j: int| 0 <= j < all.len() && all[j] == k;
            if j < front.len() {
                assert(front[j] == k);
            }
        }
        if k < ages.len() && ages[k as int] >= options.temp_max_age {
            if k < rest.len() {
                let j = choose|j: int| 0 <= j < front.len() && front[j] == k;
                assert(all[j] == k);
            } else {
                assert(all[all.len() - 1] == k);
            }
        }
    }
}

} // verus!
