//! Content-addressed store: every object is named by the BLAKE3 hash of its own
//! bytes.
//!
//! On-disk layout:
//!
//! ```text
//! <root>/CAS_VERSION            layout version, so a future change is loud
//! <root>/objects/ab/cd/abcd...  object, sharded by the first four hex chars
//! <root>/tmp/obj-<pid>-...tmp   in-flight writes, and orphans left by kills
//! ```
//!
//! Two shard levels of two hex characters give 65,536 buckets, which keeps
//! directory sizes reasonable at millions of objects. The filename is the full
//! hex digest, so an object carries its own key: an audit needs no side table
//! to check content against key.
//!
//! Writes never touch the final path directly. Bytes go to `tmp/`, get fsynced,
//! get re-hashed from disk, and only then are renamed into `objects/`. A process
//! killed at any point in that sequence leaves an orphaned temp file, never a
//! corrupt object. Which step comes next is decided here; the steps themselves
//! are the caller's.

pub mod gc;

use vstd::prelude::*;
use crate::fault::FaultPoint;
use crate::hash::{ContentHash, ContentHasher};
use crate::native::NativePath;
use crate::{hash, native, sorted, text};

verus! {

/// Bumped when the on-disk layout changes in a way older builds misread.
pub const LAYOUT_VERSION: u32 = 1;

/// What went wrong with the store.
#[derive(PartialEq, Eq, Debug)]
pub enum CasError {
    Io { path: String, message: String },
    Missing { hash: ContentHash },
    /// The store contains an object whose content does not hash to its key.
    /// Atomic writes are designed to make this unreachable; if it ever fires,
    /// something else has written into the store.
    Corrupt { hash: ContentHash, actual: ContentHash },
    /// The bytes read back from the temp file did not hash to what was written.
    WriteVerification { expected: ContentHash, actual: ContentHash },
    LayoutVersion { path: String, found: String },
}

/// The message for an error of the store.
pub open spec fn cas_error_text(e: CasError) -> Seq<char> {
    match e {
        CasError::Io { path, message } => path@ + ": "@ + message@,
        CasError::Missing { hash } => "object "@ + hash::hex(hash@) + " is not in the store"@,
        CasError::Corrupt { hash, actual } => "object "@ + hash::hex(hash@)
            + " contains content hashing to "@ + hash::hex(actual@),
        CasError::WriteVerification { expected, actual } =>
            "write verification failed: hashed "@ + hash::hex(expected@) + " while writing, "@
            + hash::hex(actual@) + " on readback"@,
        CasError::LayoutVersion { path, found } => "cache at "@ + path@ + " has layout version "@
            + found@ + ", this build understands 1"@,
    }
}

impl CasError {
    /// The message shown to the user.
    pub fn to_string(&self) -> (r: String)
        ensures
            r@ == cas_error_text(*self),
    {
        match self {
            CasError::Io { path, message } => {
                let mut out = text::chars_of(path.as_str());
                text::append_str(&mut out, ": ");
                text::append_str(&mut out, message.as_str());
                text::string_of(&out)
            },
            CasError::Missing { hash } => {
                let mut out = text::chars_of("object ");
                text::append_str(&mut out, hash.to_hex().as_str());
                text::append_str(&mut out, " is not in the store");
                text::string_of(&out)
            },
            CasError::Corrupt { hash, actual } => {
                let mut out = text::chars_of("object ");
                text::append_str(&mut out, hash.to_hex().as_str());
                text::append_str(&mut out, " contains content hashing to ");
                text::append_str(&mut out, actual.to_hex().as_str());
                text::string_of(&out)
            },
            CasError::WriteVerification { expected, actual } => {
                let mut out = text::chars_of("write verification failed: hashed ");
                text::append_str(&mut out, expected.to_hex().as_str());
                text::append_str(&mut out, " while writing, ");
                text::append_str(&mut out, actual.to_hex().as_str());
                text::append_str(&mut out, " on readback");
                text::string_of(&out)
            },
            CasError::LayoutVersion { path, found } => {
                let mut out = text::chars_of("cache at ");
                text::append_str(&mut out, path.as_str());
                text::append_str(&mut out, " has layout version ");
                text::append_str(&mut out, found.as_str());
                text::append_str(&mut out, ", this build understands 1");
                text::string_of(&out)
            },
        }
    }
}

// ---------------------------------------------------------------------------
// Where things are.

/// The layout of a store below its root.
#[derive(Debug)]
pub struct Cas {
    root: String,
    objects: String,
    tmp: String,
}

impl View for Cas {
    type V = Seq<char>;

    /// The root directory.
    closed spec fn view(&self) -> Seq<char> {
        self.root@
    }
}

/// Where objects are.
pub open spec fn objects_dir(root: Seq<char>) -> Seq<char> {
    native::joined_native(root, "objects"@)
}

/// Where in-flight writes are.
pub open spec fn tmp_dir(root: Seq<char>) -> Seq<char> {
    native::joined_native(root, "tmp"@)
}

/// Where the object with a key is: below two shards, under its full key.
pub open spec fn object_path_of(root: Seq<char>, key: Seq<u8>) -> Seq<char> {
    let name = hash::hex(key);
    native::joined_native(
        native::joined_native(
            native::joined_native(objects_dir(root), name.subrange(0, 2)),
            name.subrange(2, 4),
        ),
        name,
    )
}

impl Clone for Cas {
    fn clone(&self) -> (r: Self)
        ensures
            r@ == self@,
    {
        proof {
            use_type_invariant(self);
        }
        Cas { root: self.root.clone(), objects: self.objects.clone(), tmp: self.tmp.clone() }
    }
}

impl Cas {
    #[verifier::type_invariant]
    spec fn laid_out(self) -> bool {
        self.objects@ == objects_dir(self.root@) && self.tmp@ == tmp_dir(self.root@)
    }

    /// The layout of a store at `root`.
    pub fn at(root: &str) -> (r: Self)
        ensures
            r@ == root@,
    {
        Cas {
            root: root.to_string(),
            objects: native::join(root, "objects"),
            tmp: native::join(root, "tmp"),
        }
    }

    /// The root directory.
    pub fn root(&self) -> (r: &str)
        ensures
            r@ == self@,
    {
        self.root.as_str()
    }

    /// The directory that holds objects.
    pub fn objects(&self) -> (r: &str)
        ensures
            r@ == objects_dir(self@),
    {
        proof {
            use_type_invariant(self);
        }
        self.objects.as_str()
    }

    /// The directory that holds in-flight writes.
    pub fn temp_dir(&self) -> (r: &str)
        ensures
            r@ == tmp_dir(self@),
    {
        proof {
            use_type_invariant(self);
        }
        self.tmp.as_str()
    }

    /// The file that holds the layout version.
    pub fn version_path(&self) -> (r: String)
        ensures
            r@ == native::joined_native(self@, "CAS_VERSION"@),
    {
        native::join(self.root.as_str(), "CAS_VERSION")
    }

    /// Where an object lives, whether or not it exists.
    pub fn object_path(&self, hash: &ContentHash) -> (r: String)
        ensures
            r@ == object_path_of(self@, hash@),
    {
        proof {
            use_type_invariant(self);
        }
        let name = hash.to_hex();
        let first = name.as_str().substring_char(0, 2);
        let second = name.as_str().substring_char(2, 4);
        let outer = native::join(self.objects.as_str(), first);
        let inner = native::join(outer.as_str(), second);
        native::join(inner.as_str(), name.as_str())
    }
}

/// Objects with different keys are in different places.
pub proof fn objects_do_not_collide(root: Seq<char>, a: Seq<u8>, b: Seq<u8>)
    requires
        a.len() == 32 && b.len() == 32,
        object_path_of(root, a) == object_path_of(root, b),
    ensures
        a == b,
{
    hash::hex_reads_back(a);
    hash::hex_reads_back(b);
    let x = object_path_of(root, a);
    let y = object_path_of(root, b);
    hash::lemma_hex_plain(a);
    hash::lemma_hex_plain(b);
    assert(x.skip(x.len() - 64) =~= hash::hex(a));
    assert(y.skip(y.len() - 64) =~= hash::hex(b));
}

// ---------------------------------------------------------------------------
// The layout version.

/// Whether the text of the version file names this layout.
pub open spec fn is_this_layout(found: Seq<char>) -> bool {
    text::unsigned_value(text::trimmed(found), u32::MAX as nat) == Some(LAYOUT_VERSION as nat)
}

/// Checks the text of the version file.
pub fn check_layout_version(path: &str, found: &str) -> (r: Result<(), CasError>)
    ensures
        match r {
            Ok(_) => is_this_layout(found@),
            Err(CasError::LayoutVersion { path: at, found: version }) => !is_this_layout(found@)
                && at@ == path@ && version@ == text::trimmed(found@),
            Err(_) => false,
        },
{
    let chars = text::chars_of(found);
    let trimmed = text::trim(&chars);
    if let Some(version) = text::parse_unsigned(trimmed, u32::MAX as u64) {
        if version == LAYOUT_VERSION as u64 {
            return Ok(());
        }
    }
    Err(CasError::LayoutVersion { path: path.to_string(), found: text::string_of(trimmed) })
}

/// The text of the version file of a new store.
pub fn layout_version_text() -> (r: String)
    ensures
        r@ == "1\n"@,
        is_this_layout(r@),
{
    proof {
        reveal_strlit("1\n");
        reveal_with_fuel(text::digits_value, 2);
        let s = "1\n"@;
        assert(s =~= seq!['1', '\n']);
        reveal_with_fuel(text::trimmed_end, 3);
        assert(text::trimmed_start(s) == s);
        assert(s.drop_last() =~= seq!['1']);
        assert(text::trimmed(s) =~= seq!['1']);
        assert(seq!['1'].drop_last() =~= Seq::<char>::empty());
        assert(text::digits_value(seq!['1']) == 1);
    }
    "1\n".to_string()
}

// ---------------------------------------------------------------------------
// Writing.

/// A write under way: the content that went to the temp file so far.
pub struct Put {
    hasher: ContentHasher,
    started: bool,
}

/// What to do with a temp file that was written, synced and read back.
#[derive(PartialEq, Eq, Debug)]
pub enum Placement {
    /// Make it read-only, pass the checkpoint, rename it to this path.
    Rename { hash: ContentHash, target: String, checkpoint: FaultPoint },
    /// Identical content is already stored; drop the temp file.
    Drop { hash: ContentHash },
}

impl Put {
    /// The content so far.
    pub closed spec fn written(&self) -> Seq<u8> {
        self.hasher@
    }

    /// Whether a chunk was written.
    pub closed spec fn started(&self) -> bool {
        self.started
    }

    /// A write with no content yet.
    pub fn new() -> (r: Self)
        ensures
            r.written() == Seq::<u8>::empty(),
            !r.started(),
    {
        Put { hasher: ContentHasher::new(), started: false }
    }

    /// Takes the next chunk, which goes to the temp file too. After the first one
    /// the write has an interruptible midpoint.
    pub fn chunk(&mut self, bytes: &[u8]) -> (r: Option<FaultPoint>)
        ensures
            final(self).written() == old(self).written() + bytes@,
            final(self).started(),
            r == if old(self).started() {
                None::<FaultPoint>
            } else {
                Some(FaultPoint::CasMidWrite)
            },
    {
        let first = !self.started;
        let mut hasher = ContentHasher::new();
        std::mem::swap(&mut self.hasher, &mut hasher);
        hasher.update(bytes);
        self.hasher = hasher;
        self.started = true;
        if first {
            Some(FaultPoint::CasMidWrite)
        } else {
            None
        }
    }

    /// The key of the content.
    pub fn key(&self) -> (r: ContentHash)
        ensures
            r@ == hash::blake3_digest(self.written()),
    {
        self.hasher.finish()
    }

    /// Where the object with this content belongs.
    pub fn target(&self, cas: &Cas) -> (r: String)
        ensures
            r@ == object_path_of(cas@, hash::blake3_digest(self.written())),
    {
        cas.object_path(&self.hasher.finish())
    }

    /// Decides what becomes of the temp file. The bytes are read back off the
    /// filesystem before they are trusted: a short write or a bad disk fails
    /// loudly here, instead of becoming an object that lies about its own hash.
    pub fn place(&self, cas: &Cas, readback: &ContentHash, stored: bool) -> (r: Result<
        Placement,
        CasError,
    >)
        ensures
            match r {
                Ok(Placement::Rename { hash, target, checkpoint }) => {
                    &&& readback@ == hash::blake3_digest(self.written())
                    &&& !stored
                    &&& hash@ == hash::blake3_digest(self.written())
                    &&& target@ == object_path_of(cas@, hash@)
                    &&& checkpoint == FaultPoint::CasBeforeRename
                },
                Ok(Placement::Drop { hash }) => {
                    &&& readback@ == hash::blake3_digest(self.written())
                    &&& stored
                    &&& hash@ == hash::blake3_digest(self.written())
                },
                Err(CasError::WriteVerification { expected, actual }) => {
                    &&& readback@ != hash::blake3_digest(self.written())
                    &&& expected@ == hash::blake3_digest(self.written())
                    &&& actual@ == readback@
                },
                Err(_) => false,
            },
    {
        let hash = self.hasher.finish();
        if !readback.same(&hash) {
            return Err(CasError::WriteVerification { expected: hash, actual: *readback });
        }
        if stored {
            return Ok(Placement::Drop { hash });
        }
        let target = cas.object_path(&hash);
        Ok(Placement::Rename { hash, target, checkpoint: FaultPoint::CasBeforeRename })
    }
}

// ---------------------------------------------------------------------------
// Reading and checking.

/// What a failure to open an object means.
pub fn open_failure(hash: &ContentHash, path: &str, missing: bool, message: &str) -> (r: CasError)
    ensures
        match r {
            CasError::Missing { hash: key } => missing && key@ == hash@,
            CasError::Io { path: at, message: why } => !missing && at@ == path@ && why@
                == message@,
            _ => false,
        },
{
    if missing {
        CasError::Missing { hash: *hash }
    } else {
        CasError::Io { path: path.to_string(), message: message.to_string() }
    }
}

/// Checks what an object was found to hash to against its key.
pub fn check_content(hash: &ContentHash, actual: &ContentHash) -> (r: Result<(), CasError>)
    ensures
        match r {
            Ok(_) => actual@ == hash@,
            Err(CasError::Corrupt { hash: key, actual: found }) => actual@ != hash@ && key@
                == hash@ && found@ == actual@,
            Err(_) => false,
        },
{
    if actual.same(hash) {
        Ok(())
    } else {
        Err(CasError::Corrupt { hash: *hash, actual: *actual })
    }
}

/// The key of a file, if it is validly named and in the right shard. One that
/// is filed under the wrong shard would be invisible to lookups.
pub open spec fn object_key(
    name: Seq<char>,
    outer: Seq<char>,
    inner: Seq<char>,
    is_file: bool,
) -> Option<Seq<u8>> {
    if is_file && hash::utf8_len(name) == 64 && hash::hash_of_hex(name) is Some && outer
        == name.subrange(0, 2) && inner == name.subrange(2, 4) {
        hash::hash_of_hex(name)
    } else {
        None
    }
}

/// The hash of a file, if it is a validly named object in the right shard.
pub fn classify_object(name: &str, outer: &str, inner: &str, is_file: bool) -> (r: Option<
    ContentHash,
>)
    ensures
        text::view_of(r) == object_key(name@, outer@, inner@, is_file),
{
    if !is_file {
        return None;
    }
    let found = match ContentHash::parse_hex(name) {
        Ok(found) => found,
        Err(_) => {
            return None;
        },
    };
    let first = name.substring_char(0, 2);
    let second = name.substring_char(2, 4);
    if text::same_text(outer, first) && text::same_text(inner, second) {
        Some(found)
    } else {
        None
    }
}

/// What lies below `objects/`.
#[derive(PartialEq, Eq, Debug)]
pub enum Found {
    /// Something on a level where only directories belong.
    Stray(NativePath),
    /// A file or directory inside a shard.
    Entry { path: NativePath, name: Option<String>, outer: String, inner: String, is_file: bool },
}

/// What something below `objects/` counts as: an object, or a stray.
pub open spec fn found_key(found: Found) -> Option<Seq<u8>> {
    match found {
        Found::Stray(_) => None,
        Found::Entry { path, name, outer, inner, is_file } => match name {
            Some(name) => object_key(name@, outer@, inner@, is_file),
            None => None,
        },
    }
}

/// The path of something below `objects/`.
pub open spec fn found_path(found: Found) -> native::NativePathModel {
    match found {
        Found::Stray(path) => path@,
        Found::Entry { path, name, outer, inner, is_file } => path@,
    }
}

/// The keys of the objects that were found, in the order in which they were.
pub open spec fn keys_found(list: Seq<Found>) -> Seq<Seq<u8>>
    decreases list.len(),
{
    if list.len() == 0 {
        Seq::empty()
    } else {
        match found_key(list.last()) {
            Some(key) => keys_found(list.drop_last()).push(key),
            None => keys_found(list.drop_last()),
        }
    }
}

/// The paths of the strays that were found, in the order in which they were.
pub open spec fn strays_found(list: Seq<Found>) -> Seq<native::NativePathModel>
    decreases list.len(),
{
    if list.len() == 0 {
        Seq::empty()
    } else {
        match found_key(list.last()) {
            Some(_) => strays_found(list.drop_last()),
            None => strays_found(list.drop_last()).push(found_path(list.last())),
        }
    }
}

/// The objects and the strays of a store, each sorted.
pub struct Scan {
    pub hashes: Vec<ContentHash>,
    pub strays: Vec<NativePath>,
}

/// Sorts out what was found below `objects/`.
pub fn scan(list: &Vec<Found>) -> (r: Scan)
    ensures
        sorted::list_views(r.hashes@) == sorted::stable_sorted(keys_found(list@)),
        sorted::list_views(r.strays@) == sorted::stable_sorted(strays_found(list@)),
{
    let mut hashes: Vec<ContentHash> = Vec::new();
    let mut strays: Vec<NativePath> = Vec::new();
    let mut i: usize = 0;
    assert(sorted::list_views(hashes@) =~= Seq::empty());
    assert(sorted::list_views(strays@) =~= Seq::empty());
    while i < list.len()
        invariant
            i <= list@.len(),
            sorted::list_views(hashes@) == keys_found(list@.take(i as int)),
            sorted::list_views(strays@) == strays_found(list@.take(i as int)),
        decreases list@.len() - i,
    {
        let ghost known = sorted::list_views(hashes@);
        let ghost lost = sorted::list_views(strays@);
        assert(list@.take(i + 1).drop_last() =~= list@.take(i as int));
        let (path, key) = match &list[i] {
            Found::Stray(path) => (path, None),
            Found::Entry { path, name, outer, inner, is_file } => (
                path,
                match name {
                    Some(name) => classify_object(
                        name.as_str(),
                        outer.as_str(),
                        inner.as_str(),
                        *is_file,
                    ),
                    None => None,
                },
            ),
        };
        match key {
            Some(hash) => {
                hashes.push(hash);
                assert(sorted::list_views(hashes@) =~= known.push(hash@));
            },
            None => {
                let copy = path.clone();
                strays.push(copy);
                assert(sorted::list_views(strays@) =~= lost.push(copy@));
            },
        }
        i += 1;
    }
    assert(list@.take(i as int) =~= list@);
    Scan { hashes: sorted::sort(hashes), strays: sorted::sort(strays) }
}

// ---------------------------------------------------------------------------
// Auditing.

/// What was seen of one object.
#[derive(Debug)]
pub enum Seen {
    /// Its size and what its content hashes to.
    Content { size: u64, actual: ContentHash },
    /// Its size; its content could not be read.
    Size { size: u64, message: String },
    /// Not even its size could be read.
    Nothing { message: String },
}

/// What an audit found.
#[derive(Debug)]
pub struct AuditReport {
    pub objects: usize,
    pub bytes: u64,
    /// Objects whose content does not hash to their key.
    pub corrupt: Vec<ContentHash>,
    pub unreadable: Vec<(ContentHash, String)>,
    /// Files under `objects/` that are not validly named objects.
    pub stray_files: Vec<NativePath>,
    /// Orphaned in-flight writes. Expected after a kill; swept by `gc`.
    pub temp_files: usize,
}

impl Default for AuditReport {
    fn default() -> (r: Self)
        ensures
            r.objects == 0 && r.bytes == 0 && r.temp_files == 0,
            r.corrupt@.len() == 0 && r.unreadable@.len() == 0 && r.stray_files@.len() == 0,
    {
        AuditReport {
            objects: 0,
            bytes: 0,
            corrupt: Vec::new(),
            unreadable: Vec::new(),
            stray_files: Vec::new(),
            temp_files: 0,
        }
    }
}

/// The size that was seen.
pub open spec fn seen_size(seen: Seen) -> nat {
    match seen {
        Seen::Content { size, actual } => size as nat,
        Seen::Size { size, message } => size as nat,
        Seen::Nothing { message } => 0,
    }
}

/// All sizes that were seen, added up.
pub open spec fn total_size(list: Seq<(ContentHash, Seen)>) -> nat
    decreases list.len(),
{
    if list.len() == 0 {
        0
    } else {
        total_size(list.drop_last()) + seen_size(list.last().1)
    }
}

/// The keys whose content hashes to something else, in order.
pub open spec fn corrupt_keys(list: Seq<(ContentHash, Seen)>) -> Seq<Seq<u8>>
    decreases list.len(),
{
    if list.len() == 0 {
        Seq::empty()
    } else {
        let front = corrupt_keys(list.drop_last());
        match list.last().1 {
            Seen::Content { size, actual } => if actual@ != list.last().0@ {
                front.push(list.last().0@)
            } else {
                front
            },
            _ => front,
        }
    }
}

/// The keys that could not be read, each with the reason, in order.
pub open spec fn unreadable_keys(list: Seq<(ContentHash, Seen)>) -> Seq<(Seq<u8>, Seq<char>)>
    decreases list.len(),
{
    if list.len() == 0 {
        Seq::empty()
    } else {
        let front = unreadable_keys(list.drop_last());
        match list.last().1 {
            Seen::Content { size, actual } => front,
            Seen::Size { size, message } => front.push((list.last().0@, message@)),
            Seen::Nothing { message } => front.push((list.last().0@, message@)),
        }
    }
}

/// The keys and reasons that a list of them stands for.
pub open spec fn complaints(list: Seq<(ContentHash, String)>) -> Seq<(Seq<u8>, Seq<char>)> {
    list.map_values(|p: (ContentHash, String)| (p.0@, p.1@))
}

proof fn lemma_total_size_grows(list: Seq<(ContentHash, Seen)>, n: int)
    requires
        0 <= n <= list.len(),
    ensures
        total_size(list.take(n)) <= total_size(list),
    decreases list.len() - n,
{
    if n == list.len() {
        assert(list.take(n) =~= list);
    } else {
        assert(list.take(n + 1).drop_last() =~= list.take(n));
        lemma_total_size_grows(list, n + 1);
    }
}

/// Draws up the report of an audit. After any number of interrupted writes,
/// every object's content must still match its key.
pub fn audit(
    objects: &Vec<(ContentHash, Seen)>,
    stray_files: Vec<NativePath>,
    temp_files: usize,
) -> (r: AuditReport)
    requires
        total_size(objects@) <= u64::MAX,
    ensures
        r.objects == objects@.len(),
        r.bytes == total_size(objects@),
        sorted::list_views(r.corrupt@) == corrupt_keys(objects@),
        complaints(r.unreadable@) == unreadable_keys(objects@),
        r.stray_files == stray_files,
        r.temp_files == temp_files,
{
    let mut bytes: u64 = 0;
    let mut corrupt: Vec<ContentHash> = Vec::new();
    let mut unreadable: Vec<(ContentHash, String)> = Vec::new();
    let mut i: usize = 0;
    assert(sorted::list_views(corrupt@) =~= Seq::empty());
    assert(complaints(unreadable@) =~= Seq::empty());
    while i < objects.len()
        invariant
            i <= objects@.len(),
            total_size(objects@) <= u64::MAX,
            bytes == total_size(objects@.take(i as int)),
            sorted::list_views(corrupt@) == corrupt_keys(objects@.take(i as int)),
            complaints(unreadable@) == unreadable_keys(objects@.take(i as int)),
        decreases objects@.len() - i,
    {
        let ghost wrong = sorted::list_views(corrupt@);
        let ghost dark = complaints(unreadable@);
        proof {
            assert(objects@.take(i + 1).drop_last() =~= objects@.take(i as int));
            lemma_total_size_grows(objects@, i + 1);
        }
        let key = &objects[i].0;
        match &objects[i].1 {
            Seen::Content { size, actual } => {
                bytes = bytes + *size;
                if !actual.same(key) {
                    corrupt.push(*key);
                    assert(sorted::list_views(corrupt@) =~= wrong.push(key@));
                }
            },
            Seen::Size { size, message } => {
                bytes = bytes + *size;
                unreadable.push((*key, message.clone()));
                assert(complaints(unreadable@) =~= dark.push((key@, message@)));
            },
            Seen::Nothing { message } => {
                unreadable.push((*key, message.clone()));
                assert(complaints(unreadable@) =~= dark.push((key@, message@)));
            },
        }
        i += 1;
    }
    assert(objects@.take(i as int) =~= objects@);
    AuditReport { objects: objects.len(), bytes, corrupt, unreadable, stray_files, temp_files }
}

impl AuditReport {
    /// Whether the store is trustworthy. Orphaned temp files do not count
    /// against it: they are the designed outcome of an interrupted write.
    pub fn is_clean(&self) -> (r: bool)
        ensures
            r == (self.corrupt@.len() == 0 && self.unreadable@.len() == 0 && self.stray_files@.len()
                == 0),
    {
        self.corrupt.len() == 0 && self.unreadable.len() == 0 && self.stray_files.len() == 0
    }
}

/// A store in which every object could be read and holds what its key says, and
/// in which nothing else lies about, is clean.
pub proof fn honest_stores_are_clean(list: Seq<(ContentHash, Seen)>)
    requires
        forall|i: int|
            0 <= i < list.len() ==> (#[trigger] list[i]).1 is Content && list[i].1->actual@
                == list[i].0@,
    ensures
        corrupt_keys(list).len() == 0,
        unreadable_keys(list).len() == 0,
    decreases list.len(),
{
    if list.len() > 0 {
        let front = list.drop_last();
        assert forall|i: int| 0 <= i < front.len() implies (#[trigger] front[i]).1 is Content
            && front[i].1->actual@ == front[i].0@ by {
            assert(front[i] == list[i]);
        }
        honest_stores_are_clean(front);
        assert(list[list.len() - 1] == list.last());
    }
}

/// Whether the content of an object is not what its key says.
pub open spec fn is_wrong(object: (ContentHash, Seen)) -> bool {
    object.1 matches Seen::Content { size, actual } && actual@ != object.0@
}

/// An audit names every object that is not what its key says, and no other; and
/// every object that could not be read, and no other.
pub proof fn audits_agree_with_their_objects(list: Seq<(ContentHash, Seen)>, key: Seq<u8>)
    ensures
        corrupt_keys(list).contains(key) <==> exists|i: int|
            0 <= i < list.len() && is_wrong(#[trigger] list[i]) && list[i].0@ == key,
        (exists|k: int|
            0 <= k < unreadable_keys(list).len() && (#[trigger] unreadable_keys(list)[k]).0 == key)
            <==> exists|i: int|
            0 <= i < list.len() && !((#[trigger] list[i]).1 is Content) && list[i].0@ == key,
        corrupt_keys(list).len() + unreadable_keys(list).len() <= list.len(),
    decreases list.len(),
{
    if list.len() > 0 {
        let front = list.drop_last();
        let last = list.last();
        let wrong = corrupt_keys(list);
        let before = corrupt_keys(front);
        let dark = unreadable_keys(list);
        let earlier = unreadable_keys(front);
        audits_agree_with_their_objects(front, key);
        assert(list[list.len() - 1] == last);
        if wrong.contains(key) {
            let k = choose|k: int| 0 <= k < wrong.len() && wrong[k] == key;
            if k < before.len() {
                assert(before[k] == key);
                let i = choose|i: int|
                    0 <= i < front.len() && is_wrong(#[trigger] front[i]) && front[i].0@ == key;
                assert(list[i] == front[i]);
            }
        }
        if exists|i: int| 0 <= i < list.len() && is_wrong(#[trigger] list[i]) && list[i].0@ == key {
            let i = choose|i: int|
                0 <= i < list.len() && is_wrong(#[trigger] list[i]) && list[i].0@ == key;
            if i < front.len() {
                assert(front[i] == list[i]);
                assert(before.contains(key));
                let k = choose|k: int| 0 <= k < before.len() && before[k] == key;
                assert(wrong[k] == key);
            } else {
                assert(wrong[wrong.len() - 1] == key);
            }
        }
        if exists|k: int| 0 <= k < dark.len() && (#[trigger] dark[k]).0 == key {
            let k = choose|k: int| 0 <= k < dark.len() && (#[trigger] dark[k]).0 == key;
            if k < earlier.len() {
                assert(earlier[k].0 == key);
                let i = choose|i: int|
                    0 <= i < front.len() && !((#[trigger] front[i]).1 is Content) && front[i].0@
                        == key;
                assert(list[i] == front[i]);
            }
        }
        if exists|i: int|
            0 <= i < list.len() && !((#[trigger] list[i]).1 is Content) && list[i].0@ == key {
            let i = choose|i: int|
                0 <= i < list.len() && !((#[trigger] list[i]).1 is Content) && list[i].0@ == key;
            if i < front.len() {
                assert(front[i] == list[i]);
                let k = choose|k: int| 0 <= k < earlier.len() && (#[trigger] earlier[k]).0 == key;
                assert(dark[k].0 == key);
            } else {
                assert(dark[dark.len() - 1].0 == key);
            }
        }
    }
}

/// Whatever lies below `objects/` counts, once, as an object or as a stray.
pub proof fn scans_leave_nothing_out(list: Seq<Found>)
    ensures
        sorted::stable_sorted(keys_found(list)).len() + sorted::stable_sorted(
            strays_found(list),
        ).len() == list.len(),
        sorted::in_order(sorted::stable_sorted(keys_found(list))),
        sorted::in_order(sorted::stable_sorted(strays_found(list))),
{
    lemma_found(list);
    sorted::sorting_orders_and_keeps(keys_found(list));
    sorted::sorting_orders_and_keeps(strays_found(list));
}

proof fn lemma_found(list: Seq<Found>)
    ensures
        keys_found(list).len() + strays_found(list).len() == list.len(),
    decreases list.len(),
{
    if list.len() > 0 {
        lemma_found(list.drop_last());
    }
}

/// The keys of objects.
pub open spec fn keys_of(objects: Seq<(ContentHash, Seen)>) -> Seq<Seq<u8>> {
    objects.map_values(|o: (ContentHash, Seen)| o.0@)
}

proof fn lemma_corrupt_keys_are_keys(objects: Seq<(ContentHash, Seen)>, n: int)
    requires
        0 <= n <= objects.len(),
        sorted::in_order(keys_of(objects)),
    ensures
        sorted::in_order(corrupt_keys(objects.take(n))),
        forall|k: int|
            0 <= k < corrupt_keys(objects.take(n)).len() ==> exists|i: int|
                0 <= i < n && #[trigger] keys_of(objects)[i] == (#[trigger] corrupt_keys(
                    objects.take(n),
                )[k]),
    decreases n,
{
    let keys = keys_of(objects);
    let some = corrupt_keys(objects.take(n));
    if n == 0 {
        assert(objects.take(0).len() == 0);
    } else {
        lemma_corrupt_keys_are_keys(objects, n - 1);
        let before = corrupt_keys(objects.take(n - 1));
        assert(objects.take(n).drop_last() =~= objects.take(n - 1));
        assert(objects.take(n).last() == objects[n - 1]);
        assert(keys[n - 1] == objects[n - 1].0@);
        assert forall|k: int| 0 <= k < some.len() implies exists|i: int|
            0 <= i < n && #[trigger] keys[i] == (#[trigger] some[k]) by {
            if k < before.len() {
                assert(before[k] == some[k]);
                let i = choose|i: int| 0 <= i < n - 1 && #[trigger] keys[i] == before[k];
                assert(keys[i] == some[k]);
            } else {
                assert(keys[n - 1] == some[k]);
            }
        }
        assert forall|i: int, j: int| 0 <= i < j < some.len() implies !crate::order::precedes(
            crate::order::Rank::rank(#[trigger] some[j]),
            crate::order::Rank::rank(#[trigger] some[i]),
        ) by {
            assert(before[i] == some[i]);
            if j < before.len() {
                assert(before[j] == some[j]);
            } else {
                let a = choose|a: int| 0 <= a < n - 1 && #[trigger] keys[a] == before[i];
                assert(some[j] == keys[n - 1]);
            }
        }
    }
}

proof fn lemma_strays(found: Seq<Found>)
    ensures
        strays_found(found).len() == 0 <==> forall|i: int|
            0 <= i < found.len() ==> found_key(#[trigger] found[i]) is Some,
    decreases found.len(),
{
    if found.len() > 0 {
        let front = found.drop_last();
        lemma_strays(front);
        assert(found[found.len() - 1] == found.last());
        if strays_found(found).len() == 0 {
            assert forall|i: int| 0 <= i < found.len() implies found_key(
                #[trigger] found[i],
            ) is Some by {
                if i < front.len() {
                    assert(found_key(front[i]) is Some);
                }
            }
        } else if forall|i: int| 0 <= i < found.len() ==> found_key(#[trigger] found[i]) is Some {
            assert forall|i: int| 0 <= i < front.len() implies found_key(
                #[trigger] front[i],
            ) is Some by {
                assert(front[i] == found[i]);
            }
        }
    }
}

/// Whether an object could be read and is what its key says.
pub open spec fn is_honest(object: (ContentHash, Seen)) -> bool {
    object.1 matches Seen::Content { size, actual } && actual@ == object.0@
}

/// An audit of the objects that a scan found counts each of them. It names those
/// that are not what their keys say, and no others, in ascending order. It is clean
/// exactly where every object could be read and is what its key says, and the scan
/// found nothing else.
pub proof fn audits_cover_scans(found: Seq<Found>, objects: Seq<(ContentHash, Seen)>)
    requires
        keys_of(objects) == sorted::stable_sorted(keys_found(found)),
    ensures
        objects.len() == keys_found(found).len(),
        objects.len() + strays_found(found).len() == found.len(),
        sorted::in_order(corrupt_keys(objects)),
        forall|key: Seq<u8>| #[trigger]
            corrupt_keys(objects).contains(key) <==> exists|i: int|
                0 <= i < objects.len() && is_wrong(#[trigger] objects[i]) && objects[i].0@ == key,
        forall|key: Seq<u8>| #[trigger]
            corrupt_keys(objects).contains(key) ==> keys_found(found).contains(key),
        (corrupt_keys(objects).len() == 0 && unreadable_keys(objects).len() == 0 && strays_found(
            found,
        ).len() == 0) <==> (forall|i: int|
            0 <= i < objects.len() ==> is_honest(#[trigger] objects[i])) && (forall|i: int|
            0 <= i < found.len() ==> found_key(#[trigger] found[i]) is Some),
{
    let keys = keys_found(found);
    let corrupt = corrupt_keys(objects);
    lemma_found(found);
    lemma_strays(found);
    sorted::sorting_orders_and_keeps(keys);
    assert(keys_of(objects).len() == objects.len());
    lemma_corrupt_keys_are_keys(objects, objects.len() as int);
    assert(objects.take(objects.len() as int) =~= objects);
    assert forall|key: Seq<u8>| #[trigger] corrupt.contains(key) implies keys.contains(key) by {
        broadcast use vstd::seq_lib::group_to_multiset_ensures;

        let k = choose|k: int| 0 <= k < corrupt.len() && corrupt[k] == key;
        let i = choose|i: int|
            0 <= i < objects.len() && #[trigger] keys_of(objects)[i] == corrupt[k];
        assert(keys_of(objects).contains(key));
        assert(keys_of(objects).to_multiset().count(key) > 0);
    }
    assert forall|key: Seq<u8>| #[trigger] corrupt.contains(key) <==> exists|i: int|
        0 <= i < objects.len() && is_wrong(#[trigger] objects[i]) && objects[i].0@ == key by {
        audits_agree_with_their_objects(objects, key);
    }
    if corrupt.len() == 0 && unreadable_keys(objects).len() == 0 {
        assert forall|i: int| 0 <= i < objects.len() implies is_honest(#[trigger] objects[i]) by {
            audits_agree_with_their_objects(objects, objects[i].0@);
        }
    }
    if forall|i: int| 0 <= i < objects.len() ==> is_honest(#[trigger] objects[i]) {
        assert forall|i: int| 0 <= i < objects.len() implies (#[trigger] objects[i]).1 is Content
            && objects[i].1->actual@ == objects[i].0@ by {
            assert(is_honest(objects[i]));
        }
        honest_stores_are_clean(objects);
    }
}

/// An object is found where it is written: below a directory for each of the first two
/// bytes of its key, under the key itself. Under any other name or in any other shard a
/// file is no object.
pub proof fn objects_are_found_where_they_are_written(
    root: Seq<char>,
    key: Seq<u8>,
    name: Seq<char>,
    outer: Seq<char>,
    inner: Seq<char>,
    is_file: bool,
)
    requires
        root.len() > 0 && root.last() != '/',
        key.len() == 32,
    ensures
        ({
            let h = hash::hex(key);
            &&& object_path_of(root, key) == root + "/objects/"@ + h.take(2) + "/"@
                + h.subrange(2, 4) + "/"@ + h
            &&& object_key(h, h.take(2), h.subrange(2, 4), true) == Some(key)
            &&& object_key(name, outer, inner, is_file) == Some(key) ==> is_file && outer
                == name.take(2) && inner == name.subrange(2, 4)
            &&& object_key(name, outer, inner, false) is None
        }),
{
    reveal_strlit("objects");
    reveal_strlit("/objects/");
    reveal_strlit("/");
    let h = hash::hex(key);
    hash::hash_reads_back(key);
    hash::lemma_hex_plain(key);
    assert(h.len() == 64);
    assert(h.subrange(0, 2) =~= h.take(2));
    assert(name.subrange(0, 2) =~= name.take(2));
    assert(('0' <= h[0] && h[0] <= '9') || ('a' <= h[0] && h[0] <= 'f'));
    assert(('0' <= h[2] && h[2] <= '9') || ('a' <= h[2] && h[2] <= 'f'));
    assert(h.take(2)[0] == h[0] && h.subrange(2, 4)[0] == h[2]);
    assert(object_path_of(root, key) =~= root + "/objects/"@ + h.take(2) + "/"@ + h.subrange(2, 4)
        + "/"@ + h);
}

} // verus!
