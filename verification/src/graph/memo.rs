//! Memoization: reuse a resolved graph when nothing it depended on changed.
//!
//! A memo record is a *lookup hint plus a proof*. The key (entry path + options)
//! only decides which record to read; whether that record may be used is
//! decided entirely by re-checking the [`ResolveTrace`] it carries: every file
//! it read must still hash the same, and every path it probed and found absent
//! must still be absent. Two projects that collide on a key therefore cannot
//! serve each other stale graphs; they simply miss. Two projects with identical
//! content share a hit, which is the cross-project reuse the store exists for.
//!
//! No timestamp is consulted anywhere in this file.

use vstd::prelude::*;
use crate::cas::gc::Live;
use crate::cas::{Cas, CasError};
use crate::graph::resolver::{
    Disk, FactModel, Hashes, OptionsModel, Paths, ResolveTrace, ResolverOptions,
    TraceModel, WalkModel,
};
use crate::graph::{resolver, GraphSnapshot, ModuleGraph, SnapshotError};
use crate::hash::{ContentHash, HashBuilder};
use crate::path::NormalizedPath;
use crate::sorted::SortedMap;
use crate::{cas, graph, hash, native, order, path, sorted, text};

verus! {

/// Bumped when the record shape changes; old records then miss rather than
/// being misread.
pub const MEMO_FORMAT_VERSION: u32 = 1;

/// What went wrong with a memo.
#[derive(Debug)]
pub enum MemoError {
    Io { path: String, message: String },
    Cas(CasError),
    Snapshot(SnapshotError),
}

/// The message for a failure; that of the store or of the snapshot where one of
/// these failed.
pub open spec fn memo_error_text(e: MemoError) -> Seq<char> {
    match e {
        MemoError::Io { path, message } => path@ + ": "@ + message@,
        MemoError::Cas(e) => cas::cas_error_text(e),
        MemoError::Snapshot(e) => graph::snapshot_error_text(e@),
    }
}

impl MemoError {
    /// The message shown to the user.
    pub fn to_string(&self) -> (r: String)
        ensures
            r@ == memo_error_text(*self),
    {
        match self {
            MemoError::Io { path, message } => {
                let mut out = text::chars_of(path.as_str());
                text::append_str(&mut out, ": ");
                text::append_str(&mut out, message.as_str());
                text::string_of(&out)
            },
            MemoError::Cas(e) => e.to_string(),
            MemoError::Snapshot(e) => e.to_string(),
        }
    }
}

// ---------------------------------------------------------------------------
// Records.

/// Identifies which record to consult; never, on its own, whether it is valid.
#[derive(PartialEq, Eq, Clone, Copy, Debug)]
pub struct MemoKey(ContentHash);

impl View for MemoKey {
    type V = Seq<u8>;

    closed spec fn view(&self) -> Seq<u8> {
        self.0@
    }
}

/// What a key takes in.
pub open spec fn memo_parts(entry: Seq<char>, options: OptionsModel) -> Seq<Seq<u8>> {
    seq![
        hash::text_part("opal.memo.graph.v1"@),
        hash::number_part(MEMO_FORMAT_VERSION as u64),
        hash::text_part(entry),
        hash::key_of(resolver::options_parts(options)),
    ]
}

impl MemoKey {
    /// The key of the graph of an entry.
    pub fn for_graph(entry: &NormalizedPath, options: &ResolverOptions) -> (r: Self)
        ensures
            r@ == hash::key_of(memo_parts(entry@, options@)),
    {
        let mut builder = HashBuilder::new("opal.memo.graph.v1");
        builder.push_u64(MEMO_FORMAT_VERSION as u64);
        builder.push_str(entry.as_str());
        builder.push_hash(&options.digest());
        proof {
            let domain = hash::text_part("opal.memo.graph.v1"@);
            let version = hash::number_part(MEMO_FORMAT_VERSION as u64);
            let name = hash::text_part(entry@);
            let digest = hash::key_of(resolver::options_parts(options@));
            hash::lemma_framed_push(seq![domain], version);
            hash::lemma_framed_push(seq![domain].push(version), name);
            hash::lemma_framed_push(seq![domain].push(version).push(name), digest);
            assert(seq![domain].push(version).push(name).push(digest) =~= memo_parts(
                entry@,
                options@,
            ));
        }
        MemoKey(builder.finish())
    }

    /// The key as text.
    pub fn to_hex(self) -> (r: String)
        ensures
            r@ == hash::hex(self@),
            r@.len() == 64,
    {
        self.0.to_hex()
    }
}

/// What a record holds.
#[derive(PartialEq, Eq, Debug)]
pub struct MemoRecord {
    pub version: u32,
    pub entry: NormalizedPath,
    pub trace: ResolveTrace,
    pub output: ContentHash,
}

impl MemoRecord {
    /// A record of the current format.
    pub fn new(entry: NormalizedPath, trace: ResolveTrace, output: ContentHash) -> (r: Self)
        ensures
            r.version == MEMO_FORMAT_VERSION,
            r.entry@ == entry@,
            r.trace@ == trace@,
            r.output@ == output@,
    {
        MemoRecord { version: MEMO_FORMAT_VERSION, entry, trace, output }
    }
}

/// Why a lookup did not produce a usable graph. Carried into CLI output and
/// test assertions, because "it missed" without a reason is unfalsifiable.
#[derive(PartialEq, Eq, Debug)]
pub enum MissReason {
    NoRecord,
    FormatVersion(u32),
    RecordUnreadable(String),
    InputChanged(NormalizedPath),
    InputRemoved(NormalizedPath),
    /// A path the previous run probed and found absent now exists: resolution
    /// could pick differently, so the old graph cannot be trusted.
    MissingPathAppeared(NormalizedPath),
    /// The record survived but its graph was garbage-collected out of the store.
    OutputEvicted(ContentHash),
}

/// What a `MissReason` stands for.
#[verifier::ext_equal]
pub enum MissModel {
    NoRecord,
    FormatVersion(u32),
    RecordUnreadable(Seq<char>),
    InputChanged(Seq<char>),
    InputRemoved(Seq<char>),
    MissingPathAppeared(Seq<char>),
    OutputEvicted(Seq<u8>),
}

impl View for MissReason {
    type V = MissModel;

    open spec fn view(&self) -> MissModel {
        match self {
            MissReason::NoRecord => MissModel::NoRecord,
            MissReason::FormatVersion(found) => MissModel::FormatVersion(*found),
            MissReason::RecordUnreadable(why) => MissModel::RecordUnreadable(why@),
            MissReason::InputChanged(path) => MissModel::InputChanged(path@),
            MissReason::InputRemoved(path) => MissModel::InputRemoved(path@),
            MissReason::MissingPathAppeared(path) => MissModel::MissingPathAppeared(path@),
            MissReason::OutputEvicted(hash) => MissModel::OutputEvicted(hash@),
        }
    }
}

/// A reason in words.
pub open spec fn miss_text(reason: MissModel) -> Seq<char> {
    match reason {
        MissModel::NoRecord => "no record"@,
        MissModel::FormatVersion(found) => "record format v"@ + text::decimal(found as nat),
        MissModel::RecordUnreadable(why) => "record unreadable: "@ + why,
        MissModel::InputChanged(path) => "changed: "@ + path,
        MissModel::InputRemoved(path) => "removed: "@ + path,
        MissModel::MissingPathAppeared(path) => "appeared: "@ + path,
        MissModel::OutputEvicted(hash) => "graph "@ + hash::hex(hash) + " evicted from the store"@,
    }
}

impl MissReason {
    /// The reason in words.
    pub fn to_string(&self) -> (r: String)
        ensures
            r@ == miss_text(self@),
    {
        match self {
            MissReason::NoRecord => "no record".to_string(),
            MissReason::FormatVersion(found) => {
                let mut out = text::chars_of("record format v");
                text::append(&mut out, &text::render_decimal(*found as u64));
                text::string_of(&out)
            },
            MissReason::RecordUnreadable(why) => text::concat(
                "record unreadable: ".to_string(),
                why.as_str(),
            ),
            MissReason::InputChanged(path) => text::concat(
                "changed: ".to_string(),
                path.as_str(),
            ),
            MissReason::InputRemoved(path) => text::concat(
                "removed: ".to_string(),
                path.as_str(),
            ),
            MissReason::MissingPathAppeared(path) => text::concat(
                "appeared: ".to_string(),
                path.as_str(),
            ),
            MissReason::OutputEvicted(hash) => {
                let mut out = text::chars_of("graph ");
                text::append_str(&mut out, hash.to_hex().as_str());
                text::append_str(&mut out, " evicted from the store");
                text::string_of(&out)
            },
        }
    }
}

/// Whether a graph came from the cache.
#[derive(PartialEq, Eq, Debug)]
pub enum CacheStatus {
    Hit,
    Miss(MissReason),
}

impl CacheStatus {
    /// Whether it did.
    pub fn is_hit(&self) -> (r: bool)
        ensures
            r == (self is Hit),
    {
        match self {
            CacheStatus::Hit => true,
            CacheStatus::Miss(_) => false,
        }
    }

    /// The status in words.
    pub fn to_string(&self) -> (r: String)
        ensures
            r@ == match self {
                CacheStatus::Hit => "HIT"@,
                CacheStatus::Miss(reason) => "MISS ("@ + miss_text(reason@) + ")"@,
            },
    {
        match self {
            CacheStatus::Hit => "HIT".to_string(),
            CacheStatus::Miss(reason) => {
                let mut out = text::chars_of("MISS (");
                text::append_str(&mut out, reason.to_string().as_str());
                text::append_str(&mut out, ")");
                text::string_of(&out)
            },
        }
    }
}

// ---------------------------------------------------------------------------
// Checking a trace.

/// The first file that is not what it was, if any: changed, or gone.
pub open spec fn first_changed(files: Hashes, actual: Seq<Option<Seq<u8>>>) -> Option<MissModel>
    decreases files.len(),
{
    if files.len() == 0 {
        None
    } else {
        match first_changed(files.drop_last(), actual) {
            Some(reason) => Some(reason),
            None => match actual[files.len() - 1] {
                Some(hash) => if hash == files.last().1 {
                    None
                } else {
                    Some(MissModel::InputChanged(files.last().0))
                },
                None => Some(MissModel::InputRemoved(files.last().0)),
            },
        }
    }
}

/// The first path at which there is a file now, if any.
pub open spec fn first_appeared(missing: Paths, present: Seq<bool>) -> Option<MissModel>
    decreases missing.len(),
{
    if missing.len() == 0 {
        None
    } else {
        match first_appeared(missing.drop_last(), present) {
            Some(reason) => Some(reason),
            None => if present[missing.len() - 1] {
                Some(MissModel::MissingPathAppeared(missing.last().0))
            } else {
                None
            },
        }
    }
}

/// Why a trace does not hold any more, if it does not.
pub open spec fn trace_fault(
    trace: TraceModel,
    actual: Seq<Option<Seq<u8>>>,
    present: Seq<bool>,
) -> Option<MissModel> {
    match first_changed(trace.files, actual) {
        Some(reason) => Some(reason),
        None => first_appeared(trace.missing, present),
    }
}

/// What files hash to, where they can be read.
pub open spec fn hash_views(list: Seq<Option<ContentHash>>) -> Seq<Option<Seq<u8>>> {
    list.map_values(|h: Option<ContentHash>| text::view_of(h))
}

/// Re-checks a trace, given what each of its files hashes to now, and whether
/// there is a file now at each path where there was none. `None` means every
/// recorded fact still holds. A directory that appeared where a file was probed
/// is no file.
pub fn validate(
    trace: &ResolveTrace,
    actual: &Vec<Option<ContentHash>>,
    present: &Vec<bool>,
) -> (r: Option<MissReason>)
    requires
        actual@.len() == trace@.files.len(),
        present@.len() == trace@.missing.len(),
    ensures
        text::view_of(r) == trace_fault(trace@, hash_views(actual@), present@),
        r is None <==> (forall|i: int|
            0 <= i < trace@.files.len() ==> #[trigger] hash_views(actual@)[i] == Some(
                trace@.files[i].1,
            )) && (forall|i: int| 0 <= i < trace@.missing.len() ==> !#[trigger] present@[i]),
{
    let ghost files = trace@.files;
    let ghost missing = trace@.missing;
    let ghost hashes = hash_views(actual@);
    let n: usize = trace.files.len();
    let mut i: usize = 0;
    while i < n
        invariant
            i <= n,
            n == files.len(),
            files == trace.files@,
            missing == trace.missing@,
            hashes == hash_views(actual@),
            actual@.len() == files.len(),
            first_changed(files.take(i as int), hashes) is None,
            forall|k: int| 0 <= k < i ==> #[trigger] hashes[k] == Some(files[k].1),
        decreases n - i,
    {
        let p = trace.files.key_at(i);
        let expected = trace.files.value_at(i);
        proof {
            assert(files.take(i + 1).drop_last() =~= files.take(i as int));
            assert(files.take(i + 1).last() == (p@, expected@));
            assert(hashes[i as int] == text::view_of(actual@[i as int]));
        }
        let reason = match &actual[i] {
            Some(found) => if found.same(expected) {
                None
            } else {
                Some(MissReason::InputChanged(p.clone()))
            },
            None => Some(MissReason::InputRemoved(p.clone())),
        };
        if reason.is_some() {
            proof {
                lemma_changed_stays(files, hashes, i + 1);
            }
            return reason;
        }
        i += 1;
    }
    assert(files.take(i as int) =~= files);
    let m: usize = trace.missing.len();
    let mut k: usize = 0;
    while k < m
        invariant
            k <= m,
            m == missing.len(),
            files == trace.files@,
            missing == trace.missing@,
            present@.len() == missing.len(),
            hashes == hash_views(actual@),
            first_changed(files, hashes) is None,
            forall|i: int| 0 <= i < files.len() ==> #[trigger] hashes[i] == Some(files[i].1),
            first_appeared(missing.take(k as int), present@) is None,
            forall|i: int| 0 <= i < k ==> !#[trigger] present@[i],
        decreases m - k,
    {
        let p = trace.missing.key_at(k);
        proof {
            assert(missing.take(k + 1).drop_last() =~= missing.take(k as int));
            assert(missing.take(k + 1).last() == (p@, ()));
        }
        if present[k] {
            proof {
                lemma_appeared_stays(missing, present@, k + 1);
            }
            return Some(MissReason::MissingPathAppeared(p.clone()));
        }
        k += 1;
    }
    assert(missing.take(k as int) =~= missing);
    None
}

proof fn lemma_changed_stays(files: Hashes, actual: Seq<Option<Seq<u8>>>, n: int)
    requires
        0 <= n <= files.len(),
        first_changed(files.take(n), actual) is Some,
    ensures
        first_changed(files, actual) == first_changed(files.take(n), actual),
    decreases files.len() - n,
{
    if n == files.len() {
        assert(files.take(n) =~= files);
    } else {
        assert(files.take(n + 1).drop_last() =~= files.take(n));
        lemma_changed_stays(files, actual, n + 1);
    }
}

proof fn lemma_appeared_stays(missing: Paths, present: Seq<bool>, n: int)
    requires
        0 <= n <= missing.len(),
        first_appeared(missing.take(n), present) is Some,
    ensures
        first_appeared(missing, present) == first_appeared(missing.take(n), present),
    decreases missing.len() - n,
{
    if n == missing.len() {
        assert(missing.take(n) =~= missing);
    } else {
        assert(missing.take(n + 1).drop_last() =~= missing.take(n));
        lemma_appeared_stays(missing, present, n + 1);
    }
}

// ---------------------------------------------------------------------------
// Looking up.

/// Accepts a record that was read, or says why there is none to use.
pub fn accept_record(record: Option<Result<MemoRecord, String>>) -> (r: Result<MemoRecord, MissReason>)
    ensures
        match (record, r) {
            (None, Err(reason)) => reason@ == MissModel::NoRecord,
            (Some(Err(why)), Err(reason)) => reason@ == MissModel::RecordUnreadable(why@),
            (Some(Ok(found)), Err(reason)) => found.version != MEMO_FORMAT_VERSION && reason@
                == MissModel::FormatVersion(found.version),
            (Some(Ok(found)), Ok(accepted)) => found.version == MEMO_FORMAT_VERSION && accepted
                == found,
            _ => false,
        },
{
    match record {
        None => Err(MissReason::NoRecord),
        Some(Err(why)) => Err(MissReason::RecordUnreadable(why)),
        Some(Ok(found)) => {
            if found.version != MEMO_FORMAT_VERSION {
                Err(MissReason::FormatVersion(found.version))
            } else {
                Ok(found)
            }
        },
    }
}

/// The graph of a record whose trace holds, from the snapshot that the store
/// gave: none where it holds none under that hash, or the reason why it cannot be
/// read.
pub fn restore(
    root: &NormalizedPath,
    output: &ContentHash,
    stored: Option<Result<GraphSnapshot, String>>,
) -> (r: Result<Result<ModuleGraph, MissReason>, SnapshotError>)
    ensures
        match (stored, r) {
            (None, Ok(Err(reason))) => reason@ == MissModel::OutputEvicted(output@),
            (Some(Err(why)), Ok(Err(reason))) => reason@ == MissModel::RecordUnreadable(why@),
            (Some(Ok(snapshot)), Ok(Ok(found))) => {
                &&& graph::restored(root@, snapshot@) == Ok::<
                    graph::GraphModel,
                    graph::SnapshotFault,
                >(found@)
                &&& graph::is_sound(found@)
                &&& found@.modules[found@.entry as int].path == snapshot@.entry
            },
            (Some(Ok(snapshot)), Err(e)) => graph::restored(root@, snapshot@) == Err::<
                graph::GraphModel,
                graph::SnapshotFault,
            >(e@),
            _ => false,
        },
{
    match stored {
        None => Ok(Err(MissReason::OutputEvicted(*output))),
        Some(Err(why)) => Ok(Err(MissReason::RecordUnreadable(why))),
        Some(Ok(snapshot)) => match ModuleGraph::from_snapshot(root, snapshot) {
            Ok(found) => Ok(Ok(found)),
            Err(e) => Err(e),
        },
    }
}

/// Graph snapshots in the store, plus the records that point at them.
///
/// One store is shared by every tool: the test runner and the bundler asking
/// for the same graph must reach the same record.
#[derive(Debug)]
pub struct GraphCache {
    cas: Cas,
    records: String,
}

impl GraphCache {
    /// The root of the objects.
    pub closed spec fn objects_root(&self) -> Seq<char> {
        self.cas@
    }

    /// The directory of the records.
    pub closed spec fn records_dir(&self) -> Seq<char> {
        self.records@
    }

    /// A cache over a store and a directory of records.
    pub fn at(cas: Cas, records: &str) -> (r: Self)
        ensures
            r.objects_root() == cas@,
            r.records_dir() == records@,
    {
        GraphCache { cas, records: records.to_string() }
    }

    /// The store.
    pub fn cas(&self) -> (r: &Cas)
        ensures
            r@ == self.objects_root(),
    {
        &self.cas
    }

    /// The directory of the records.
    pub fn records(&self) -> (r: &str)
        ensures
            r@ == self.records_dir(),
    {
        self.records.as_str()
    }

    /// Where the record of a key is.
    pub fn record_path(&self, key: MemoKey) -> (r: String)
        ensures
            r@ == native::joined_native(
                native::joined_native(self.records_dir(), hash::hex(key@).subrange(0, 2)),
                hash::hex(key@) + ".json"@,
            ),
    {
        let hex = key.to_hex();
        let shard = native::join(self.records.as_str(), hex.as_str().substring_char(0, 2));
        let name = text::concat(hex, ".json");
        native::join(shard.as_str(), name.as_str())
    }
}

/// What records still point at.
pub open spec fn outputs_of(outputs: Seq<Seq<u8>>) -> Seq<(Seq<u8>, ())>
    decreases outputs.len(),
{
    if outputs.len() == 0 {
        Seq::empty()
    } else {
        sorted::put(outputs_of(outputs.drop_last()), outputs.last(), ())
    }
}

/// Graph objects still referenced by a record: what a collection must leave
/// alone. A record that cannot be read is not a reason to abort a collection; it
/// just marks nothing, and is itself garbage.
pub fn live_outputs(outputs: &Vec<ContentHash>) -> (r: Live)
    ensures
        r@ == outputs_of(sorted::list_views(outputs@)),
{
    let ghost all = sorted::list_views(outputs@);
    let mut live: Live = SortedMap::new();
    let mut i: usize = 0;
    while i < outputs.len()
        invariant
            i <= outputs@.len(),
            all == sorted::list_views(outputs@),
            live@ == outputs_of(all.take(i as int)),
        decreases outputs@.len() - i,
    {
        proof {
            assert(all.take(i + 1).drop_last() =~= all.take(i as int));
            assert(all.take(i + 1).last() == outputs@[i as int]@);
        }
        live.insert(outputs[i], ());
        i += 1;
    }
    assert(all.take(i as int) =~= all);
    live
}

/// A resolved graph, plus whether it came from the cache.
#[derive(Debug)]
pub struct CachedResolution {
    pub graph: ModuleGraph,
    pub status: CacheStatus,
    pub key: MemoKey,
    pub output: ContentHash,
}

// ---------------------------------------------------------------------------
// Hits are sound.

/// Whether a trace holds on a disk: every file that was read hashes to the same,
/// and where there was no file there is none.
pub open spec fn trace_holds(trace: TraceModel, root: Seq<char>, disk: Disk) -> bool {
    &&& forall|i: int|
        0 <= i < trace.files.len() ==> match sorted::lookup(
            disk,
            path::joined_path(root, (#[trigger] trace.files[i]).0),
        ) {
            Some(FactModel::File { hash, content }) => hash == trace.files[i].1,
            _ => false,
        }
    &&& forall|i: int|
        0 <= i < trace.missing.len() ==> sorted::lookup(
            disk,
            path::joined_path(root, (#[trigger] trace.missing[i]).0),
        ) == Some(FactModel::Missing)
}

/// Whether a path is found again from its root-relative form.
pub open spec fn is_found_again(root: Seq<char>, p: Seq<char>) -> bool {
    path::joined_path(root, graph::rooted(root, p)) == p
}

/// Whether files with one hash hold one content.
pub open spec fn hashes_tell_apart(a: Disk, b: Disk) -> bool {
    forall|p: Seq<char>|
        match (#[trigger] sorted::lookup(a, p), sorted::lookup(b, p)) {
            (
                Some(FactModel::File { hash: x, content: c }),
                Some(FactModel::File { hash: y, content: d }),
            ) => x == y ==> c == d,
            _ => true,
        }
}

proof fn lemma_rooted_file(root: Seq<char>, files: Hashes, i: int)
    requires
        sorted::ascending(files),
        0 <= i < files.len(),
        forall|k: int| 0 <= k < files.len() ==> is_found_again(root, (#[trigger] files[k]).0),
    ensures
        sorted::ascending(resolver::rooted_files(root, files)),
        sorted::lookup(
            resolver::rooted_files(root, files),
            graph::rooted(root, files[i].0),
        ) == Some(files[i].1),
    decreases files.len(),
{
    let front = files.drop_last();
    let last = files.last();
    assert(sorted::ascending(front)) by {
        assert forall|a: int, b: int| 0 <= a < b < front.len() implies order::precedes(
            order::text_rank((#[trigger] front[a]).0),
            order::text_rank((#[trigger] front[b]).0),
        ) by {
            assert(front[a] == files[a] && front[b] == files[b]);
        }
    }
    assert forall|k: int| 0 <= k < front.len() implies is_found_again(
        root,
        (#[trigger] front[k]).0,
    ) by {
        assert(front[k] == files[k]);
    }
    let before = resolver::rooted_files(root, front);
    if front.len() > 0 {
        lemma_rooted_file(root, front, 0);
    }
    let key = graph::rooted(root, last.0);
    let mine = graph::rooted(root, files[i].0);
    sorted::lemma_put_ascending(before, key, last.1);
    sorted::lemma_put_lookup(before, key, last.1, mine);
    order::lemma_text_rank_injective(mine, key);
    assert(files[files.len() - 1] == last);
    assert(is_found_again(root, files[i].0) && is_found_again(root, last.0));
    if i < front.len() {
        assert(front[i] == files[i]);
        lemma_rooted_file(root, front, i);
        let (x, y) = (files[i], files[files.len() - 1]);
        order::lemma_asymmetric(order::text_rank(x.0), order::text_rank(y.0));
        assert(mine != key);
    }
}

proof fn lemma_rooted_path(root: Seq<char>, paths: Paths, i: int)
    requires
        0 <= i < paths.len(),
    ensures
        sorted::ascending(resolver::rooted_paths(root, paths)),
        sorted::holds(resolver::rooted_paths(root, paths), graph::rooted(root, paths[i].0)),
    decreases paths.len(),
{
    let front = paths.drop_last();
    let before = resolver::rooted_paths(root, front);
    let key = graph::rooted(root, paths.last().0);
    let mine = graph::rooted(root, paths[i].0);
    if front.len() > 0 {
        lemma_rooted_path(root, front, 0);
    }
    sorted::lemma_put_ascending(before, key, ());
    sorted::lemma_put_lookup(before, key, (), mine);
    if i < front.len() {
        assert(front[i] == paths[i]);
        lemma_rooted_path(root, front, i);
    }
}

/// A file of a trace that holds is there with the same hash.
proof fn lemma_file_holds(root: Seq<char>, walk: WalkModel, disk: Disk, p: Seq<char>)
    requires
        walk.builder.root == root,
        trace_holds(resolver::trace_of(walk), root, disk),
        sorted::ascending(walk.files),
        sorted::holds(walk.files, p),
        forall|k: int|
            0 <= k < walk.files.len() ==> is_found_again(root, (#[trigger] walk.files[k]).0),
    ensures
        sorted::lookup(disk, p) matches Some(FactModel::File { hash, content }) && Some(hash)
            == sorted::lookup(walk.files, p),
{
    sorted::lemma_slot(walk.files, p);
    let i = sorted::slot(walk.files, p) as int;
    order::lemma_text_rank_injective(walk.files[i].0, p);
    lemma_rooted_file(root, walk.files, i);
    let all = resolver::trace_of(walk).files;
    let key = graph::rooted(root, p);
    sorted::lemma_slot(all, key);
    let k = sorted::slot(all, key) as int;
    order::lemma_text_rank_injective(all[k].0, key);
    assert(is_found_again(root, walk.files[i].0));
    assert(all[k].0 == key);
}

/// Where a trace that holds found no file, there is none.
proof fn lemma_missing_holds(root: Seq<char>, walk: WalkModel, disk: Disk, p: Seq<char>)
    requires
        walk.builder.root == root,
        trace_holds(resolver::trace_of(walk), root, disk),
        sorted::holds(walk.missing, p),
        forall|k: int|
            0 <= k < walk.missing.len() ==> is_found_again(root, (#[trigger] walk.missing[k]).0),
    ensures
        sorted::lookup(disk, p) == Some(FactModel::Missing),
{
    sorted::lemma_slot(walk.missing, p);
    let i = sorted::slot(walk.missing, p) as int;
    order::lemma_text_rank_injective(walk.missing[i].0, p);
    lemma_rooted_path(root, walk.missing, i);
    let all = resolver::trace_of(walk).missing;
    let key = graph::rooted(root, p);
    sorted::lemma_slot(all, key);
    let k = sorted::slot(all, key) as int;
    order::lemma_text_rank_injective(all[k].0, key);
    assert(is_found_again(root, walk.missing[i].0));
    assert(all[k].0 == key);
}

/// A record is only ever used where resolving anew would give the same graph:
/// where the trace of a finished walk holds, a walk over what is on disk now
/// takes the same course and ends with the same modules, edges and diagnostics.
///
/// It asks that the files of the first walk could be read, that the hash tells
/// contents apart, and that the traced paths are found again from their
/// root-relative forms (`relative_path_leads_back` says when they are).
pub proof fn memo_hits_are_sound(
    then: Disk,
    now: Disk,
    options: OptionsModel,
    root: Seq<char>,
    entry: Seq<char>,
    steps: nat,
)
    requires
        resolver::is_readable(then),
        hashes_tell_apart(then, now),
        forall|n: nat|
            n < steps ==> resolver::walk_step(
                then,
                options,
                #[trigger] resolver::walked(
                    then,
                    options,
                    resolver::walk_start(root, entry),
                    n,
                ),
            ) is Next,
        ({
            let walk = resolver::walked(
                then,
                options,
                resolver::walk_start(root, entry),
                steps,
            );
            &&& resolver::walk_step(then, options, walk) is Done
            &&& trace_holds(resolver::trace_of(walk), root, now)
            &&& forall|k: int|
                0 <= k < walk.files.len() ==> is_found_again(root, (#[trigger] walk.files[k]).0)
            &&& forall|k: int|
                0 <= k < walk.missing.len() ==> is_found_again(
                    root,
                    (#[trigger] walk.missing[k]).0,
                )
        }),
    ensures
        ({
            let walk = resolver::walked(
                then,
                options,
                resolver::walk_start(root, entry),
                steps,
            );
            let again = resolver::walked(
                now,
                options,
                resolver::walk_start(root, entry),
                steps,
            );
            &&& again == walk
            &&& resolver::walk_step(now, options, again) is Done
            &&& graph::finished(again.builder) == graph::finished(walk.builder)
        }),
{
    let start = resolver::walk_start(root, entry);
    let walk = resolver::walked(then, options, start, steps);
    resolver::lemma_walk_facts(then, options, root, entry, steps);
    assert forall|p: Seq<char>|
        sorted::holds(walk.files, p) || sorted::holds(walk.missing, p) implies #[trigger]
    sorted::lookup(then, p) == sorted::lookup(now, p) by {
        if sorted::holds(walk.files, p) {
            lemma_file_holds(root, walk, now, p);
            assert(sorted::lookup(walk.files, p) is Some);
        } else {
            lemma_missing_holds(root, walk, now, p);
        }
    }
    resolver::walks_rest_on_their_trace(then, now, options, root, entry, steps);
}

// ---------------------------------------------------------------------------
// What is unchanged hits.

/// What a disk says of the files of a trace: what each hashes to, where it is there
/// and can be read.
pub open spec fn hashes_on(trace: TraceModel, root: Seq<char>, disk: Disk) -> Seq<Option<Seq<u8>>> {
    trace.files.map_values(
        |e: (Seq<char>, Seq<u8>)|
            match sorted::lookup(disk, path::joined_path(root, e.0)) {
                Some(FactModel::File { hash, content }) => Some(hash),
                _ => None,
            },
    )
}

/// Whether there is anything, by a disk, where a trace found no file.
pub open spec fn files_on(trace: TraceModel, root: Seq<char>, disk: Disk) -> Seq<bool> {
    trace.missing.map_values(
        |e: (Seq<char>, ())|
            sorted::lookup(disk, path::joined_path(root, e.0)) != Some(FactModel::Missing),
    )
}

proof fn lemma_nothing_changed(files: Hashes, actual: Seq<Option<Seq<u8>>>)
    requires
        files.len() <= actual.len(),
    ensures
        first_changed(files, actual) is None <==> forall|i: int|
            0 <= i < files.len() ==> #[trigger] actual[i] == Some(files[i].1),
    decreases files.len(),
{
    if files.len() > 0 {
        let front = files.drop_last();
        lemma_nothing_changed(front, actual);
        assert forall|i: int| 0 <= i < front.len() implies front[i] == files[i] by {}
        let last = files.len() - 1;
        assert(files[last] == files.last());
        if first_changed(files, actual) is None {
            assert forall|i: int| 0 <= i < files.len() implies #[trigger] actual[i] == Some(
                files[i].1,
            ) by {
                if i < last {
                    assert(front[i] == files[i]);
                }
            }
        } else if forall|i: int| 0 <= i < files.len() ==> #[trigger] actual[i] == Some(files[i].1) {
            assert(actual[last] == Some(files[last].1));
            assert forall|i: int| 0 <= i < front.len() implies #[trigger] actual[i] == Some(
                front[i].1,
            ) by {
                assert(front[i] == files[i]);
            }
        }
    }
}

proof fn lemma_nothing_appeared(missing: Paths, present: Seq<bool>)
    requires
        missing.len() <= present.len(),
    ensures
        first_appeared(missing, present) is None <==> forall|i: int|
            0 <= i < missing.len() ==> !#[trigger] present[i],
    decreases missing.len(),
{
    if missing.len() > 0 {
        lemma_nothing_appeared(missing.drop_last(), present);
        let last = missing.len() - 1;
        if first_appeared(missing, present) is None {
            assert forall|i: int| 0 <= i < missing.len() implies !#[trigger] present[i] by {
                assert(i < last || i == last);
            }
        } else if forall|i: int| 0 <= i < missing.len() ==> !#[trigger] present[i] {
            assert(!present[last]);
        }
    }
}

/// Checking a trace against what is on disk finds no fault exactly where the trace
/// holds there.
pub proof fn checks_find_what_changed(trace: TraceModel, root: Seq<char>, disk: Disk)
    ensures
        trace_fault(trace, hashes_on(trace, root, disk), files_on(trace, root, disk)) is None
            <==> trace_holds(trace, root, disk),
{
    let actual = hashes_on(trace, root, disk);
    let present = files_on(trace, root, disk);
    lemma_nothing_changed(trace.files, actual);
    lemma_nothing_appeared(trace.missing, present);
    if trace_holds(trace, root, disk) {
        assert forall|i: int| 0 <= i < trace.files.len() implies #[trigger] actual[i] == Some(
            trace.files[i].1,
        ) by {}
        assert forall|i: int| 0 <= i < trace.missing.len() implies !#[trigger] present[i] by {
            assert(sorted::lookup(disk, path::joined_path(root, trace.missing[i].0)) == Some(
                FactModel::Missing,
            ));
        }
    }
    if first_changed(trace.files, actual) is None && first_appeared(trace.missing, present) is None {
        assert forall|i: int| 0 <= i < trace.files.len() implies match sorted::lookup(
            disk,
            path::joined_path(root, (#[trigger] trace.files[i]).0),
        ) {
            Some(FactModel::File { hash, content }) => hash == trace.files[i].1,
            _ => false,
        } by {
            assert(actual[i] == Some(trace.files[i].1));
        }
        assert forall|i: int| 0 <= i < trace.missing.len() implies sorted::lookup(
            disk,
            path::joined_path(root, (#[trigger] trace.missing[i]).0),
        ) == Some(FactModel::Missing) by {
            assert(!present[i]);
        }
    }
}

/// Every file of a trace is one that was read.
proof fn lemma_traced_file(root: Seq<char>, files: Hashes, i: int) -> (k: int)
    requires
        0 <= i < resolver::rooted_files(root, files).len(),
    ensures
        0 <= k < files.len(),
        resolver::rooted_files(root, files)[i] == (graph::rooted(root, files[k].0), files[k].1),
    decreases files.len(),
{
    let front = files.drop_last();
    let before = resolver::rooted_files(root, front);
    let key = graph::rooted(root, files.last().0);
    let all = resolver::rooted_files(root, files);
    let at = sorted::slot(before, key) as int;
    sorted::lemma_slot(before, key);
    if i == at {
        order::lemma_text_rank_injective(all[i].0, key);
        assert(all[i] == (key, files.last().1));
        files.len() - 1
    } else {
        let j = if sorted::holds(before, key) || i < at {
            i
        } else {
            i - 1
        };
        assert(all[i] == before[j]);
        let k = lemma_traced_file(root, front, j);
        assert(front[k] == files[k]);
        k
    }
}

proof fn lemma_traced_path(root: Seq<char>, paths: Paths, i: int) -> (k: int)
    requires
        0 <= i < resolver::rooted_paths(root, paths).len(),
    ensures
        0 <= k < paths.len(),
        resolver::rooted_paths(root, paths)[i].0 == graph::rooted(root, paths[k].0),
    decreases paths.len(),
{
    let front = paths.drop_last();
    let before = resolver::rooted_paths(root, front);
    let key = graph::rooted(root, paths.last().0);
    let all = resolver::rooted_paths(root, paths);
    let at = sorted::slot(before, key) as int;
    sorted::lemma_slot(before, key);
    if i == at {
        order::lemma_text_rank_injective(all[i].0, key);
        assert(all[i].0 == key);
        paths.len() - 1
    } else {
        let j = if sorted::holds(before, key) || i < at {
            i
        } else {
            i - 1
        };
        assert(all[i] == before[j]);
        let k = lemma_traced_path(root, front, j);
        assert(front[k] == paths[k]);
        k
    }
}

/// Where nothing changed that a walk asked for, its trace holds, so that checking
/// it finds no fault and its record is a hit. What else changed, and when files
/// were written, makes no difference.
pub proof fn unchanged_files_hit(
    then: Disk,
    now: Disk,
    options: OptionsModel,
    root: Seq<char>,
    entry: Seq<char>,
    steps: nat,
)
    requires
        ({
            let walk = resolver::walked(
                then,
                options,
                resolver::walk_start(root, entry),
                steps,
            );
            &&& resolver::agree_on_trace(then, now, walk)
            &&& forall|k: int|
                0 <= k < walk.files.len() ==> is_found_again(root, (#[trigger] walk.files[k]).0)
            &&& forall|k: int|
                0 <= k < walk.missing.len() ==> is_found_again(
                    root,
                    (#[trigger] walk.missing[k]).0,
                )
        }),
    ensures
        ({
            let trace = resolver::trace_of(
                resolver::walked(then, options, resolver::walk_start(root, entry), steps),
            );
            &&& trace_holds(trace, root, now)
            &&& trace_fault(trace, hashes_on(trace, root, now), files_on(trace, root, now)) is None
        }),
{
    let walk = resolver::walked(then, options, resolver::walk_start(root, entry), steps);
    let trace = resolver::trace_of(walk);
    resolver::lemma_walk_facts(then, options, root, entry, steps);
    assert forall|i: int| 0 <= i < trace.files.len() implies match sorted::lookup(
        now,
        path::joined_path(root, (#[trigger] trace.files[i]).0),
    ) {
        Some(FactModel::File { hash, content }) => hash == trace.files[i].1,
        _ => false,
    } by {
        let k = lemma_traced_file(root, walk.files, i);
        let p = walk.files[k].0;
        assert(is_found_again(root, p));
        sorted::lemma_holds_at(walk.files, p, k);
        assert(sorted::holds(walk.files, p));
        assert(sorted::lookup(then, p) == sorted::lookup(now, p));
    }
    assert forall|i: int| 0 <= i < trace.missing.len() implies sorted::lookup(
        now,
        path::joined_path(root, (#[trigger] trace.missing[i]).0),
    ) == Some(FactModel::Missing) by {
        let k = lemma_traced_path(root, walk.missing, i);
        let p = walk.missing[k].0;
        assert(is_found_again(root, p));
        sorted::lemma_holds_at(walk.missing, p, k);
        assert(sorted::holds(walk.missing, p));
        assert(sorted::lookup(then, p) == sorted::lookup(now, p));
    }
    checks_find_what_changed(trace, root, now);
}

/// The key of a graph takes in its entry and its options: what is hashed for two graphs
/// is the same only where the entries are, and the digests of the options.
pub proof fn keys_tell_graphs_apart(
    a: Seq<char>,
    b: Seq<char>,
    x: OptionsModel,
    y: OptionsModel,
)
    requires
        memo_parts(a, x) == memo_parts(b, y),
    ensures
        a == b,
        hash::key_of(resolver::options_parts(x)) == hash::key_of(resolver::options_parts(y)),
{
    let p = memo_parts(a, x);
    let q = memo_parts(b, y);
    assert(p[2] == q[2] && p[3] == q[3]);
    hash::lemma_parts_injective(a, b, 0, 0);
}

proof fn lemma_outputs(outputs: Seq<Seq<u8>>, hash: Seq<u8>)
    ensures
        sorted::ascending(outputs_of(outputs)),
        sorted::holds(outputs_of(outputs), hash) <==> outputs.contains(hash),
    decreases outputs.len(),
{
    let all = outputs_of(outputs);
    if outputs.len() > 0 {
        let rest = outputs.drop_last();
        let last = outputs[outputs.len() - 1];
        let front = outputs_of(rest);
        lemma_outputs(rest, hash);
        sorted::lemma_put_ascending(front, last, ());
        sorted::lemma_put_lookup(front, last, (), hash);
        hash::lemma_bytes_rank_injective(last, hash);
        if outputs.contains(hash) {
            let i = choose|i: int| 0 <= i < outputs.len() && outputs[i] == hash;
            if i < rest.len() {
                assert(rest[i] == hash);
            }
        }
        if rest.contains(hash) {
            let i = choose|i: int| 0 <= i < rest.len() && rest[i] == hash;
            assert(outputs[i] == hash);
        }
    } else {
        sorted::lemma_slot(all, hash);
    }
}

/// A collection leaves alone what records point at, all of it and nothing more.
pub proof fn recorded_outputs_are_live(outputs: Seq<Seq<u8>>, hash: Seq<u8>)
    ensures
        sorted::holds(outputs_of(outputs), hash) <==> outputs.contains(hash),
{
    lemma_outputs(outputs, hash);
}

} // verus!
