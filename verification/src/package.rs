//! Package contents in the content-addressed store.
//!
//! A tarball is never unpacked to disk as a unit. Each file inside it becomes
//! its own object, and the package is represented by an *index*, a sorted map
//! of relative path to content hash, which is itself an object. Two packages
//! that ship an identical file share one object on disk, and the linker can
//! materialize a package with hardlinks alone.

use std::io::Read;
use vstd::prelude::*;
use vstd::slice::slice_subrange;
use crate::cas::{Cas, CasError};
use crate::fault::FaultPoint;
use crate::hash::{ContentHash, HashBuilder};
use crate::integrity::{Integrity, IntegrityError, IntegrityModel};
use crate::native::{NativePath, NativePathModel};
use crate::order::{Order, Rank, Ranked};
use crate::path::NormalizedPath;
use crate::semver::{Version, VersionModel};
use crate::sorted::SortedMap;
use crate::{cas, hash, integrity, native, path, semver, sorted, text};

verus! {

/// Bumped when the index shape changes.
pub const INDEX_FORMAT_VERSION: u32 = 1;

/// What went wrong with a package.
#[allow(inconsistent_fields)]
#[derive(Debug)]
pub enum PackageError {
    Io { path: String, message: String },
    Cas(CasError),
    Integrity(IntegrityError),
    Tarball { name: String, version: Version, message: String },
    Empty { name: String, version: Version },
    Index { hash: ContentHash, message: String },
    IndexVersion { found: ContentHash, version: u32 },
}

/// The message for a failure; that of the store or of the integrity check where
/// one of these failed.
pub open spec fn package_error_text(e: PackageError) -> Seq<char> {
    match e {
        PackageError::Io { path, message } => path@ + ": "@ + message@,
        PackageError::Tarball { name, version, message } => name@ + "@"@ + semver::version_text(
            version@,
        ) + ": tarball is not readable: "@ + message@,
        PackageError::Empty { name, version } => name@ + "@"@ + semver::version_text(version@)
            + ": tarball contains no files"@,
        PackageError::Index { hash, message } => "package index "@ + hash::hex(hash@)
            + " is unreadable: "@ + message@,
        PackageError::IndexVersion { found, version } => "package index "@ + hash::hex(found@)
            + " has format v"@ + text::decimal(version as nat) + ", this build understands v1"@,
        PackageError::Cas(e) => cas::cas_error_text(e),
        PackageError::Integrity(e) => integrity::integrity_error_text(e),
    }
}

impl PackageError {
    /// The message shown to the user.
    pub fn to_string(&self) -> (r: String)
        ensures
            r@ == package_error_text(*self),
    {
        match self {
            PackageError::Io { path, message } => {
                let mut out = text::chars_of(path.as_str());
                text::append_str(&mut out, ": ");
                text::append_str(&mut out, message.as_str());
                text::string_of(&out)
            },
            PackageError::Cas(e) => e.to_string(),
            PackageError::Integrity(e) => e.to_string(),
            PackageError::Tarball { name, version, message } => {
                let mut out = text::chars_of(name.as_str());
                text::append_str(&mut out, "@");
                text::append_str(&mut out, version.to_string().as_str());
                text::append_str(&mut out, ": tarball is not readable: ");
                text::append_str(&mut out, message.as_str());
                text::string_of(&out)
            },
            PackageError::Empty { name, version } => {
                let mut out = text::chars_of(name.as_str());
                text::append_str(&mut out, "@");
                text::append_str(&mut out, version.to_string().as_str());
                text::append_str(&mut out, ": tarball contains no files");
                text::string_of(&out)
            },
            PackageError::Index { hash, message } => {
                let mut out = text::chars_of("package index ");
                text::append_str(&mut out, hash.to_hex().as_str());
                text::append_str(&mut out, " is unreadable: ");
                text::append_str(&mut out, message.as_str());
                text::string_of(&out)
            },
            PackageError::IndexVersion { found, version } => {
                let mut out = text::chars_of("package index ");
                text::append_str(&mut out, found.to_hex().as_str());
                text::append_str(&mut out, " has format v");
                let number = text::render_decimal(*version as u64);
                text::append(&mut out, &number);
                text::append_str(&mut out, ", this build understands v1");
                text::string_of(&out)
            },
        }
    }
}

// ---------------------------------------------------------------------------
// Indexes.

/// A file of a package.
#[derive(PartialEq, Eq, Clone, Copy, Debug)]
pub struct PackageFile {
    pub hash: ContentHash,
    /// Only the execute bit survives. Everything else in a tar mode is noise
    /// that would fragment the store for no behavioural difference.
    pub executable: bool,
    pub size: u64,
}

/// What a `PackageFile` stands for.
#[verifier::ext_equal]
pub struct PackageFileModel {
    pub hash: Seq<u8>,
    pub executable: bool,
    pub size: u64,
}

impl View for PackageFile {
    type V = PackageFileModel;

    open spec fn view(&self) -> PackageFileModel {
        PackageFileModel { hash: self.hash@, executable: self.executable, size: self.size }
    }
}

/// Path and content of every file of a package, by path.
pub type Files = Seq<(Seq<char>, PackageFileModel)>;

/// What a package is, as far as linking it goes.
#[derive(PartialEq, Eq, Debug)]
pub struct PackageIndex {
    pub format: u32,
    pub name: String,
    pub version: Version,
    pub files: SortedMap<NormalizedPath, PackageFile>,
}

/// What a `PackageIndex` stands for.
#[verifier::ext_equal]
pub struct PackageIndexModel {
    pub format: u32,
    pub name: Seq<char>,
    pub version: VersionModel,
    pub files: Files,
}

impl View for PackageIndex {
    type V = PackageIndexModel;

    open spec fn view(&self) -> PackageIndexModel {
        PackageIndexModel {
            format: self.format,
            name: self.name@,
            version: self.version@,
            files: self.files@,
        }
    }
}

impl PackageIndex {
    /// The file at a path of the package.
    pub fn file(&self, path: &str) -> (r: Option<&PackageFile>)
        ensures
            match r {
                Some(file) => sorted::lookup(self@.files, path::normal(path@)) == Some(file@),
                None => !sorted::holds(self@.files, path::normal(path@)),
            },
    {
        self.files.get(&NormalizedPath::new(path))
    }

    /// Accepts an index that was read back, if this build understands it.
    pub fn check_format(self, hash: &ContentHash) -> (r: Result<Self, PackageError>)
        ensures
            match r {
                Ok(index) => index == self && self.format == INDEX_FORMAT_VERSION,
                Err(PackageError::IndexVersion { found, version }) => self.format
                    != INDEX_FORMAT_VERSION && found@ == hash@ && version == self.format,
                Err(_) => false,
            },
    {
        if self.format != INDEX_FORMAT_VERSION {
            Err(PackageError::IndexVersion { found: *hash, version: self.format })
        } else {
            Ok(self)
        }
    }
}

// ---------------------------------------------------------------------------
// Tarballs.

/// A member of a tarball.
#[derive(PartialEq, Eq, Debug)]
pub struct Member {
    pub path: Vec<u8>,
    /// The mode, where the header holds a readable one.
    pub mode: Option<u32>,
    pub size: u64,
    /// What a regular file holds; nothing else has contents.
    pub contents: Option<Result<Vec<u8>, String>>,
}

/// What a `Member` stands for.
#[verifier::ext_equal]
pub struct MemberModel {
    pub path: Seq<u8>,
    pub mode: Option<u32>,
    pub size: u64,
    pub contents: Option<Result<Seq<u8>, Seq<char>>>,
}

impl View for Member {
    type V = MemberModel;

    open spec fn view(&self) -> MemberModel {
        MemberModel {
            path: self.path@,
            mode: self.mode,
            size: self.size,
            contents: match self.contents {
                Some(Ok(bytes)) => Some(Ok(bytes@)),
                Some(Err(message)) => Some(Err(message@)),
                None => None,
            },
        }
    }
}

/// The members of a tarball up to the first that could not be read.
#[derive(PartialEq, Eq, Debug)]
pub struct Archive {
    pub members: Vec<Member>,
    /// Why reading stopped before the end.
    pub failure: Option<String>,
}

/// What an `Archive` stands for.
#[verifier::ext_equal]
pub struct ArchiveModel {
    pub members: Seq<MemberModel>,
    pub failure: Option<Seq<char>>,
}

impl View for Archive {
    type V = ArchiveModel;

    open spec fn view(&self) -> ArchiveModel {
        ArchiveModel {
            members: sorted::list_views(self.members@),
            failure: text::view_of(self.failure),
        }
    }
}

/// What an entry of an archive stands for, or why it could not be read.
pub open spec fn entry_view(entry: Result<Member, String>) -> Result<MemberModel, Seq<char>> {
    match entry {
        Ok(member) => Ok(member@),
        Err(message) => Err(message@),
    }
}

/// What the entries of an archive stand for.
pub open spec fn entry_views(list: Seq<Result<Member, String>>) -> Seq<
    Result<MemberModel, Seq<char>>,
> {
    list.map_values(|e: Result<Member, String>| entry_view(e))
}

/// The bytes that `flate2::read::GzDecoder` yields before its end or its first
/// error.
pub uninterp spec fn gunzipped(tarball: Seq<u8>) -> Seq<u8>;

/// `flate2::read::GzDecoder`, read byte by byte with `Read::bytes`: what it yields
/// before its end or its first error. No way of reading it yields more, and the
/// result depends on the given bytes alone.
#[verifier::external_body]
fn gunzip(tarball: &[u8]) -> (r: Vec<u8>)
    ensures
        r@ == gunzipped(tarball@),
{
    let decoder = flate2::read::GzDecoder::new(tarball);
    decoder.bytes().map_while(|byte| byte.ok()).collect()
}

/// The block of an archive at `k`.
pub open spec fn block_at(bytes: Seq<u8>, k: nat) -> Seq<u8> {
    bytes.subrange(512 * (k as int), 512 * (k as int) + 512)
}

/// Whether an archive has a block at `k`.
pub open spec fn has_block(bytes: Seq<u8>, k: nat) -> bool {
    512 * k + 512 <= bytes.len()
}

/// The number that octal digits say, up to a zero byte; spaces do not count. None
/// where anything else stands there.
pub open spec fn octal_in(field: Seq<u8>, before: nat) -> Option<nat>
    decreases field.len(),
{
    if field.len() == 0 || field[0] == 0 {
        Some(before)
    } else if field[0] == 32 {
        octal_in(field.skip(1), before)
    } else if 48 <= field[0] <= 55 {
        octal_in(field.skip(1), (8 * before + (field[0] - 48)) as nat)
    } else {
        None
    }
}

/// The sum of bytes.
pub open spec fn sum_of(bytes: Seq<u8>) -> nat
    decreases bytes.len(),
{
    if bytes.len() == 0 {
        0
    } else {
        sum_of(bytes.drop_last()) + bytes.last() as nat
    }
}

/// Whether a block may head a member: its checksum, as far as it is written in
/// digits, is the sum of its bytes, with spaces for the checksum itself.
pub open spec fn may_be_header(block: Seq<u8>) -> bool {
    match octal_in(block.subrange(148, 156), 0) {
        Some(sum) => sum == sum_of(block.take(148)) + sum_of(block.skip(156)) + 8 * 32,
        None => true,
    }
}

/// The number that bytes say, the highest in front.
pub open spec fn big_endian(bytes: Seq<u8>) -> nat
    decreases bytes.len(),
{
    if bytes.len() == 0 {
        0
    } else {
        256 * big_endian(bytes.drop_last()) + bytes.last() as nat
    }
}

/// The size that a header gives, in binary or in octal digits.
pub open spec fn header_size(block: Seq<u8>) -> Option<nat> {
    if block[124] >= 128 {
        Some(big_endian(block.subrange(128, 136)))
    } else {
        octal_in(block.subrange(124, 136), 0)
    }
}

/// Whether a header is that of a sparse member (type `S`) whose map goes on in
/// further blocks.
pub open spec fn has_long_map(block: Seq<u8>) -> bool {
    block[156] == 83 && block[482] == 1
}

/// Whether a header says that it is GNU's.
pub open spec fn is_gnu(block: Seq<u8>) -> bool {
    block.subrange(257, 265) == seq![117u8, 115, 116, 97, 114, 32, 32, 0]
}

/// Where the map of a sparse member ends whose further blocks start at `k`: behind
/// the first that does not say there is another.
pub open spec fn map_end(bytes: Seq<u8>, k: nat) -> nat
    decreases bytes.len() - 512 * k,
{
    if !has_block(bytes, k) {
        k
    } else if bytes[512 * (k as int) + 504] == 1 {
        map_end(bytes, k + 1)
    } else {
        k + 1
    }
}

/// The text `size=`.
pub open spec fn size_key() -> Seq<u8> {
    seq![115u8, 105, 122, 101, 61]
}

/// Whether an archive holds the text `size=` at `i`.
pub open spec fn names_size(bytes: Seq<u8>, i: int) -> bool {
    bytes.subrange(i, i + 5) == size_key()
}

/// Whether the header at `k` is an extension (type `x`) that may give the next
/// member another size.
pub open spec fn may_resize(bytes: Seq<u8>, k: nat, size: nat) -> bool {
    bytes[512 * (k as int) + 156] == 120 && exists|i: int|
        512 * k + 512 <= i && i + 5 <= 512 * k + 512 + size && i + 5 <= bytes.len()
            && #[trigger] names_size(bytes, i)
}

/// Whether the block at `k` may head a sparse member with a map in further blocks.
pub open spec fn may_have_long_map(bytes: Seq<u8>, k: nat) -> bool {
    has_block(bytes, k) && may_be_header(block_at(bytes, k)) && has_long_map(
        block_at(bytes, k),
    ) && is_gnu(block_at(bytes, k))
}

/// Whether such a block comes after the one at `k`.
pub open spec fn long_map_follows(bytes: Seq<u8>, k: nat) -> bool {
    exists|j: nat| k < j && #[trigger] may_have_long_map(bytes, j)
}

/// How many blocks a size takes.
pub open spec fn blocks_in(size: nat) -> nat {
    (size + 511) / 512
}

/// Whether a position in an archive may not fit, from the header at `k` on.
///
/// Positions are counted in 64 bits. They run over only in a sparse member that is
/// said to reach to their end and whose map goes on in further blocks. Headers are
/// gone through from one to the next; where a size cannot be told, because it is
/// not written in digits or may come from an extension, any later block may be one.
pub open spec fn reaches_far_from(bytes: Seq<u8>, k: nat) -> bool
    decreases
            if 512 * k < bytes.len() {
                bytes.len() - 512 * k
            } else {
                0
            },
{
    let block = block_at(bytes, k);
    if !has_block(bytes, k) || !may_be_header(block) {
        false
    } else {
        match header_size(block) {
            None => long_map_follows(bytes, k),
            Some(size) => if has_long_map(block) {
                is_gnu(block) && (size + 511 + bytes.len() > u64::MAX || {
                    let end = map_end(bytes, k + 1);
                    end > k && reaches_far_from(bytes, end + blocks_in(size))
                })
            } else if may_resize(bytes, k, size) {
                long_map_follows(bytes, k)
            } else {
                reaches_far_from(bytes, k + 1 + blocks_in(size))
            },
        }
    }
}

/// Whether a position in an archive may not fit.
pub open spec fn reaches_far(bytes: Seq<u8>) -> bool {
    reaches_far_from(bytes, 0)
}

proof fn lemma_map_end(bytes: Seq<u8>, k: nat)
    ensures
        map_end(bytes, k) >= k,
    decreases bytes.len() - 512 * k,
{
    if has_block(bytes, k) && bytes[512 * (k as int) + 504] == 1 {
        lemma_map_end(bytes, k + 1);
    }
}

spec fn power(base: nat, n: nat) -> nat
    decreases n,
{
    if n == 0 {
        1
    } else {
        base * power(base, (n - 1) as nat)
    }
}

proof fn lemma_power(base: nat, n: nat, m: nat)
    requires
        base > 0,
        n <= m,
    ensures
        power(base, n) <= power(base, m),
    decreases m,
{
    if n < m {
        lemma_power(base, n, (m - 1) as nat);
        let before = power(base, (m - 1) as nat);
        assert(before <= base * before) by (nonlinear_arith)
            requires
                base > 0,
        ;
    }
}

/// A number of up to twelve octal digits.
fn read_octal(bytes: &Vec<u8>, from: usize, to: usize) -> (r: Option<u64>)
    requires
        from <= to <= bytes@.len(),
        to - from <= 12,
    ensures
        match r {
            Some(n) => octal_in(bytes@.subrange(from as int, to as int), 0) == Some(n as nat),
            None => octal_in(bytes@.subrange(from as int, to as int), 0) is None,
        },
{
    let ghost field = bytes@.subrange(from as int, to as int);
    let mut n: u64 = 0;
    let mut i: usize = from;
    assert(field.skip(0) =~= field);
    while i < to
        invariant
            from <= i <= to <= bytes@.len(),
            to - from <= 12,
            field == bytes@.subrange(from as int, to as int),
            n < power(8, (i - from) as nat),
            octal_in(field, 0) == octal_in(field.skip(i - from), n as nat),
        decreases to - i,
    {
        let byte = bytes[i];
        proof {
            assert(field.skip(i - from)[0] == byte);
            assert(field.skip(i - from).skip(1) =~= field.skip(i + 1 - from));
            reveal_with_fuel(power, 13);
            lemma_power(8, (i - from) as nat, 11);
            assert(power(8, 11) == 8589934592);
            assert(power(8, (i + 1 - from) as nat) == 8 * power(8, (i - from) as nat));
        }
        if byte == 0 {
            return Some(n);
        } else if 48 <= byte && byte <= 55 {
            n = 8 * n + (byte - 48) as u64;
        } else if byte != 32 {
            return None;
        }
        i += 1;
    }
    Some(n)
}

/// The number that eight bytes say.
fn read_binary(bytes: &Vec<u8>, from: usize) -> (r: u64)
    requires
        from + 8 <= bytes@.len(),
    ensures
        r as nat == big_endian(bytes@.subrange(from as int, from + 8)),
{
    let ghost field = bytes@.subrange(from as int, from + 8);
    let len: usize = bytes.len();
    let mut n: u64 = 0;
    let mut i: usize = 0;
    while i < 8
        invariant
            i <= 8,
            len == bytes@.len(),
            from + 8 <= len,
            field == bytes@.subrange(from as int, from + 8),
            n < power(256, i as nat),
            n as nat == big_endian(field.take(i as int)),
        decreases 8 - i,
    {
        proof {
            assert(field.take(i + 1).drop_last() =~= field.take(i as int));
            assert(field.take(i + 1).last() == bytes@[from + i]);
            reveal_with_fuel(power, 9);
            lemma_power(256, i as nat, 7);
            assert(power(256, 7) == 72057594037927936);
            assert(power(256, (i + 1) as nat) == 256 * power(256, i as nat));
        }
        n = 256 * n + bytes[from + i] as u64;
        i += 1;
    }
    assert(field.take(8) =~= field);
    n
}

/// The sum of up to a block of bytes.
fn read_sum(bytes: &Vec<u8>, from: usize, to: usize) -> (r: u64)
    requires
        from <= to <= bytes@.len(),
        to - from <= 512,
    ensures
        r as nat == sum_of(bytes@.subrange(from as int, to as int)),
        r <= 255 * (to - from),
{
    let ghost field = bytes@.subrange(from as int, to as int);
    let mut n: u64 = 0;
    let mut i: usize = from;
    assert(field.take(0).len() == 0);
    while i < to
        invariant
            from <= i <= to <= bytes@.len(),
            to - from <= 512,
            field == bytes@.subrange(from as int, to as int),
            n as nat == sum_of(field.take(i - from)),
            n <= 255 * (i - from),
        decreases to - i,
    {
        proof {
            assert(field.take(i + 1 - from).drop_last() =~= field.take(i - from));
            assert(field.take(i + 1 - from).last() == bytes@[i as int]);
        }
        n = n + bytes[i] as u64;
        i += 1;
    }
    assert(field.take(to - from) =~= field);
    n
}

fn seems_header(bytes: &Vec<u8>, k: usize) -> (r: bool)
    requires
        has_block(bytes@, k as nat),
    ensures
        r == may_be_header(block_at(bytes@, k as nat)),
{
    let len: usize = bytes.len();
    assert(512 * k + 512 <= len);
    let at: usize = 512 * k;
    let ghost block = block_at(bytes@, k as nat);
    proof {
        assert(block.subrange(148, 156) =~= bytes@.subrange(at + 148, at + 156));
        assert(block.take(148) =~= bytes@.subrange(at as int, at + 148));
        assert(block.skip(156) =~= bytes@.subrange(at + 156, at + 512));
    }
    match read_octal(bytes, at + 148, at + 156) {
        Some(sum) => sum == read_sum(bytes, at, at + 148) + read_sum(bytes, at + 156, at + 512)
            + 256,
        None => true,
    }
}

fn seems_gnu(bytes: &Vec<u8>, k: usize) -> (r: bool)
    requires
        has_block(bytes@, k as nat),
    ensures
        r == is_gnu(block_at(bytes@, k as nat)),
{
    let len: usize = bytes.len();
    assert(512 * k + 512 <= len);
    let at: usize = 512 * k + 257;
    let ghost found = block_at(bytes@, k as nat).subrange(257, 265);
    let ghost magic = seq![117u8, 115, 116, 97, 114, 32, 32, 0];
    proof {
        assert forall|i: int| 0 <= i < 8 implies #[trigger] found[i] == bytes@[at + i] by {}
        assert(found.len() == 8);
        if found == magic {
            assert(found[0] == 117 && found[1] == 115 && found[2] == 116 && found[3] == 97);
            assert(found[4] == 114 && found[5] == 32 && found[6] == 32 && found[7] == 0);
        }
    }
    let same = bytes[at] == 117 && bytes[at + 1] == 115 && bytes[at + 2] == 116 && bytes[at + 3]
        == 97 && bytes[at + 4] == 114 && bytes[at + 5] == 32 && bytes[at + 6] == 32 && bytes[at + 7]
        == 0;
    proof {
        if same {
            assert(found =~= magic);
        }
    }
    same
}

fn find_long_map(bytes: &Vec<u8>, after: usize) -> (r: bool)
    requires
        has_block(bytes@, after as nat),
    ensures
        r == long_map_follows(bytes@, after as nat),
{
    let len: usize = bytes.len();
    let n: usize = len / 512;
    let mut k: usize = after + 1;
    while k < n
        invariant
            after < k,
            len == bytes@.len(),
            n == len as int / 512,
            forall|j: nat| after < j < k ==> !(#[trigger] may_have_long_map(bytes@, j)),
        decreases n - k,
    {
        let at: usize = 512 * k;
        if bytes[at + 156] == 83 && bytes[at + 482] == 1 && seems_gnu(bytes, k) && seems_header(
            bytes,
            k,
        ) {
            assert(may_have_long_map(bytes@, k as nat));
            return true;
        }
        k += 1;
    }
    false
}

fn find_size_key(bytes: &Vec<u8>, from: usize, to: usize) -> (r: bool)
    requires
        from <= to <= bytes@.len(),
    ensures
        r == exists|i: int| from <= i && i + 5 <= to && #[trigger] names_size(bytes@, i),
{
    let mut i: usize = from;
    while to - i >= 5
        invariant
            from <= i <= to <= bytes@.len(),
            forall|j: int| from <= j < i ==> !(#[trigger] names_size(bytes@, j)),
        decreases to - i,
    {
        let ghost found = bytes@.subrange(i as int, i + 5);
        if bytes[i] == 115 && bytes[i + 1] == 105 && bytes[i + 2] == 122 && bytes[i + 3] == 101
            && bytes[i + 4] == 61 {
            assert(found =~= size_key());
            assert(names_size(bytes@, i as int));
            return true;
        }
        proof {
            if found == size_key() {
                assert(found[0] == 115 && found[1] == 105 && found[2] == 122 && found[3] == 101);
                assert(found[4] == 61);
            }
        }
        i += 1;
    }
    false
}

fn find_map_end(bytes: &Vec<u8>, from: usize) -> (r: usize)
    requires
        512 * from <= bytes@.len(),
    ensures
        r as nat == map_end(bytes@, from as nat),
        512 * r <= bytes@.len(),
{
    let len: usize = bytes.len();
    let n: usize = len / 512;
    let mut k: usize = from;
    while k < n
        invariant
            from <= k <= n,
            len == bytes@.len(),
            n == len as int / 512,
            map_end(bytes@, from as nat) == map_end(bytes@, k as nat),
        decreases n - k,
    {
        if bytes[512 * k + 504] != 1 {
            return k + 1;
        }
        k += 1;
    }
    k
}

fn goes_far(bytes: &Vec<u8>) -> (r: bool)
    ensures
        r == reaches_far(bytes@),
{
    let len: usize = bytes.len();
    let n: usize = len / 512;
    let mut k: usize = 0;
    while k < n
        invariant
            k <= n,
            len == bytes@.len(),
            n == len as int / 512,
            reaches_far(bytes@) == reaches_far_from(bytes@, k as nat),
        decreases n - k,
    {
        let at: usize = 512 * k;
        let ghost block = block_at(bytes@, k as nat);
        assert(has_block(bytes@, k as nat));
        if !seems_header(bytes, k) {
            return false;
        }
        proof {
            assert(block.subrange(124, 136) =~= bytes@.subrange(at + 124, at + 136));
            assert(block.subrange(128, 136) =~= bytes@.subrange(at + 128, at + 128 + 8));
            assert(block[124] == bytes@[at + 124]);
            assert(block[156] == bytes@[at + 156]);
            assert(block[482] == bytes@[at + 482]);
        }
        let size: u64 = if bytes[at + 124] >= 128 {
            read_binary(bytes, at + 128)
        } else {
            match read_octal(bytes, at + 124, at + 136) {
                Some(size) => size,
                None => {
                    return find_long_map(bytes, k);
                },
            }
        };
        assert(header_size(block) == Some(size as nat));
        let mut next: usize = k + 1;
        if bytes[at + 156] == 83 && bytes[at + 482] == 1 {
            if !seems_gnu(bytes, k) {
                return false;
            }
            if size as u128 + 511 + len as u128 > u64::MAX as u128 {
                return true;
            }
            next = find_map_end(bytes, k + 1);
            proof {
                lemma_map_end(bytes@, (k + 1) as nat);
            }
        } else if bytes[at + 156] == 120 {
            let start: usize = at + 512;
            let end: usize = if size <= (len - start) as u64 {
                start + size as usize
            } else {
                len
            };
            if find_size_key(bytes, start, end) {
                assert(may_resize(bytes@, k as nat, size as nat));
                return find_long_map(bytes, k);
            }
            assert(!may_resize(bytes@, k as nat, size as nat));
        }
        assert(reaches_far(bytes@) == reaches_far_from(
            bytes@,
            next as nat + blocks_in(size as nat),
        ));
        if size > len as u64 {
            assert(!has_block(bytes@, next as nat + blocks_in(size as nat)));
            return false;
        }
        let blocks: u64 = size / 512 + if size % 512 == 0 {
            0
        } else {
            1
        };
        assert(blocks as nat == blocks_in(size as nat));
        if blocks > (n - next) as u64 {
            assert(!has_block(bytes@, next as nat + blocks_in(size as nat)));
            return false;
        }
        k = next + blocks as usize;
    }
    false
}

/// Whether every entry of an archive could be read.
pub open spec fn all_read(list: Seq<Result<MemberModel, Seq<char>>>) -> bool {
    forall|i: int| 0 <= i < list.len() ==> (#[trigger] list[i]) is Ok
}

/// Whether contents are as long as their size says.
pub open spec fn is_whole(entry: Result<MemberModel, Seq<char>>) -> bool {
    entry matches Ok(member) && member.contents matches Some(Ok(bytes)) ==> bytes.len()
        == member.size
}

/// Whether that holds of all entries.
pub open spec fn all_whole(list: Seq<Result<MemberModel, Seq<char>>>) -> bool {
    forall|i: int| 0 <= i < list.len() ==> is_whole(#[trigger] list[i])
}

/// The entries that `tar` reads out of a gzipped archive.
pub uninterp spec fn entries_in(tarball: Seq<u8>) -> Seq<Result<MemberModel, Seq<char>>>;

/// `tar::Archive::entries` over `flate2::read::GzDecoder`: every entry in order,
/// with `Entry::path_bytes`, `Header::mode`, `Entry::size` and, for an
/// `EntryType::Regular`, the content read to its end, or the message of an entry
/// that cannot be read. (`entries` itself fails only on an archive that was read
/// from before.) What the two formats say is theirs; the result depends on the
/// bytes alone. An archive in which the crate's count of positions could run over
/// is left out. A file that was cut short is followed by an entry that cannot be
/// read, so where every entry can be, contents are as long as their size says.
#[verifier::external_body]
fn read_entries(tarball: &[u8]) -> (r: Vec<Result<Member, String>>)
    requires
        !reaches_far(gunzipped(tarball@)),
    ensures
        entry_views(r@) == entries_in(tarball@),
        all_read(entry_views(r@)) ==> all_whole(entry_views(r@)),
{
    let mut reader = tar::Archive::new(flate2::read::GzDecoder::new(tarball));
    reader.entries().into_iter().flatten().map(|found| {
        let mut e = found.map_err(|x| x.to_string())?;
        let (path, mode, size) = (e.path_bytes().into_owned(), e.header().mode().ok(), e.size());
        let mut bytes = Vec::new();
        let contents = match e.header().entry_type() {
            tar::EntryType::Regular => {
                let end = e.read_to_end(&mut bytes);
                Some(end.map(|_| bytes).map_err(|x| x.to_string()))
            },
            _ => None,
        };
        Ok(Member { path, mode, size, contents })
    }).collect()
}

/// The members of an archive up to the first entry that could not be read.
pub open spec fn gathered(list: Seq<Result<MemberModel, Seq<char>>>) -> ArchiveModel
    decreases list.len(),
{
    if list.len() == 0 {
        ArchiveModel { members: Seq::empty(), failure: None }
    } else {
        match list[0] {
            Ok(member) => {
                let rest = gathered(list.skip(1));
                ArchiveModel { members: seq![member] + rest.members, failure: rest.failure }
            },
            Err(message) => ArchiveModel { members: Seq::empty(), failure: Some(message) },
        }
    }
}

/// What a gzipped archive holds. Nothing is read of one with a member that
/// reaches too far: what it says is there cannot be there.
pub open spec fn archive_in(tarball: Seq<u8>) -> ArchiveModel {
    if reaches_far(gunzipped(tarball)) {
        ArchiveModel { members: Seq::empty(), failure: Some("size overflow"@) }
    } else {
        gathered(entries_in(tarball))
    }
}

/// Whether the contents of all members are as long as their sizes say.
pub open spec fn are_whole(members: Seq<MemberModel>) -> bool {
    forall|i: int|
        0 <= i < members.len() ==> ((#[trigger] members[i]).contents matches Some(Ok(bytes))
            ==> bytes.len() == members[i].size)
}

/// Where reading did not fail, every entry was read and is a member.
proof fn lemma_gathered(list: Seq<Result<MemberModel, Seq<char>>>)
    requires
        gathered(list).failure is None,
    ensures
        all_read(list),
        gathered(list).members.len() == list.len(),
        forall|i: int| 0 <= i < list.len() ==> #[trigger] list[i] == Ok::<MemberModel, Seq<char>>(
            gathered(list).members[i],
        ),
    decreases list.len(),
{
    if list.len() > 0 {
        let rest = list.skip(1);
        lemma_gathered(rest);
        assert forall|i: int| 0 <= i < list.len() implies #[trigger] list[i] == Ok::<
            MemberModel,
            Seq<char>,
        >(gathered(list).members[i]) by {
            if i > 0 {
                assert(rest[i - 1] == list[i]);
            }
        }
    }
}

fn gather(list: Vec<Result<Member, String>>) -> (r: Archive)
    ensures
        r@ == gathered(entry_views(list@)),
{
    let ghost all = entry_views(list@);
    let mut rest = list;
    let mut members: Vec<Member> = Vec::new();
    assert(sorted::list_views(members@) + gathered(all).members =~= gathered(all).members);
    while rest.len() > 0
        invariant
            all == entry_views(list@),
            gathered(all) == (ArchiveModel {
                members: sorted::list_views(members@) + gathered(entry_views(rest@)).members,
                failure: gathered(entry_views(rest@)).failure,
            }),
        decreases rest@.len(),
    {
        let ghost front = sorted::list_views(members@);
        let ghost views = entry_views(rest@);
        let entry = rest.remove(0);
        proof {
            assert(views[0] == entry_view(entry));
            assert(views.skip(1) =~= entry_views(rest@));
        }
        match entry {
            Ok(member) => {
                members.push(member);
                proof {
                    let later = gathered(views.skip(1)).members;
                    assert(sorted::list_views(members@) =~= front.push(member@));
                    assert(front + (seq![member@] + later) =~= front.push(member@) + later);
                }
            },
            Err(message) => {
                assert(front + Seq::<MemberModel>::empty() =~= front);
                return Archive { members, failure: Some(message) };
            },
        }
    }
    assert(sorted::list_views(members@) + Seq::<MemberModel>::empty() =~= sorted::list_views(
        members@,
    ));
    Archive { members, failure: None }
}

/// What a gzipped archive holds.
fn read_archive(tarball: &[u8]) -> (r: Archive)
    ensures
        r@ == archive_in(tarball@),
        r@.failure is None ==> are_whole(r@.members),
{
    if goes_far(&gunzip(tarball)) {
        let members: Vec<Member> = Vec::new();
        assert(sorted::list_views(members@) =~= Seq::empty());
        return Archive { members, failure: Some("size overflow".to_string()) };
    }
    let list = read_entries(tarball);
    let ghost entries = entry_views(list@);
    let archive = gather(list);
    proof {
        if archive@.failure is None {
            lemma_gathered(entries);
            assert forall|i: int| 0 <= i < archive@.members.len() implies ((
            #[trigger] archive@.members[i]).contents matches Some(Ok(bytes)) ==> bytes.len()
                == archive@.members[i].size) by {
                assert(is_whole(entries[i]));
            }
        }
    }
    archive
}

/// How far the first `/` is in, or the length where there is none.
pub open spec fn first_slash(path: Seq<u8>) -> nat
    decreases path.len(),
{
    if path.len() == 0 || path[0] == 47 {
        0
    } else {
        1 + first_slash(path.skip(1))
    }
}

/// The pieces that name something: neither empty nor `.`.
pub open spec fn named_pieces(s: Seq<char>) -> Seq<Seq<char>> {
    text::pieces(s, '/').filter(|p: Seq<char>| p.len() > 0 && p != path::here())
}

/// A path that stays below where it is put: relative, and never climbing.
pub open spec fn stays_inside(p: Seq<char>) -> bool {
    path::root_len(p) == 0 && !path::segments_of(p).contains(path::up())
}

/// The path of a file inside its package: behind the archive's root directory,
/// whatever that is called. Absolute paths and paths that climb are refused,
/// also where only the normal form shows them to be such.
pub open spec fn package_path(path: Seq<u8>) -> Option<Seq<char>> {
    let at = first_slash(path) as int;
    let root = path.take(at);
    let rest = path.skip(at + 1);
    if at == path.len() || at == 0 || root == seq![46u8] || root == seq![46u8, 46u8]
        || !vstd::utf8::valid_utf8(rest) {
        None
    } else {
        let parts = named_pieces(vstd::utf8::decode_utf8(rest));
        let p = path::normal(text::joined(parts, seq!['/']));
        if parts.len() == 0 || parts.contains(path::up()) || !stays_inside(p) {
            None
        } else {
            Some(p)
        }
    }
}

fn slash_index(path: &[u8]) -> (at: usize)
    ensures
        at == first_slash(path@),
        at <= path@.len(),
{
    let mut at: usize = 0;
    assert(path@.skip(0) =~= path@);
    while at < path.len() && path[at] != 47
        invariant
            at <= path@.len(),
            first_slash(path@) == at + first_slash(path@.skip(at as int)),
        decreases path@.len() - at,
    {
        assert(path@.skip(at as int).skip(1) =~= path@.skip(at + 1));
        at += 1;
    }
    at
}

/// Drops the tarball's single root directory and rejects anything that would
/// escape the package.
///
/// npm tarballs wrap everything in `package/`, but the name is not guaranteed,
/// so the first component is dropped whatever it is, which is what npm does.
/// Absolute paths and `..` are refused: these paths become link targets under
/// `node_modules`, so no tarball may name a file outside it.
pub fn strip_package_root(path: &[u8]) -> (r: Option<NormalizedPath>)
    ensures
        text::view_of(r) == package_path(path@),
{
    let at: usize = slash_index(path);
    if at == path.len() || at == 0 {
        return None;
    }
    let root = slice_subrange(path, 0, at);
    assert(root@ =~= path@.take(at as int));
    if root.len() <= 2 && root[0] == 46 && root[root.len() - 1] == 46 {
        proof {
            if root@.len() == 1 {
                assert(root@ =~= seq![46u8]);
            } else {
                assert(root@ =~= seq![46u8, 46u8]);
            }
        }
        return None;
    }
    let rest = slice_subrange(path, at + 1, path.len());
    assert(rest@ =~= path@.skip(at + 1));
    let decoded = match text::decode(rest) {
        Some(decoded) => decoded,
        None => {
            return None;
        },
    };
    let chars = text::chars_of(decoded.as_str());
    let pieces = text::split(&chars, '/');
    let ghost all = text::pieces(chars@, '/');
    let ghost named = |p: Seq<char>| p.len() > 0 && p != path::here();
    proof {
        reveal_strlit(".");
        reveal_strlit("..");
        reveal_strlit("/");
        assert("."@ =~= path::here());
        assert(".."@ =~= path::up());
        assert("/"@ =~= seq!['/']);
    }
    let mut parts: Vec<&[char]> = Vec::new();
    let mut i: usize = 0;
    proof {
        assert(all.take(0) =~= Seq::empty());
        all.take(0).lemma_filter_len(named);
        assert(text::views(parts@) =~= all.take(0).filter(named));
    }
    while i < pieces.len()
        invariant
            i <= pieces@.len(),
            all == text::views(pieces@),
            all.len() == pieces@.len(),
            chars@ == vstd::utf8::decode_utf8(rest@),
            rest@ == path@.skip(first_slash(path@) as int + 1),
            all == text::pieces(chars@, '/'),
            named == (|p: Seq<char>| p.len() > 0 && p != path::here()),
            "."@ == path::here(),
            ".."@ == path::up(),
            text::views(parts@) == all.take(i as int).filter(named),
            !text::views(parts@).contains(path::up()),
        decreases pieces@.len() - i,
    {
        let piece = pieces[i];
        let ghost before = parts@;
        proof {
            assert(all[i as int] == piece@);
            assert(all.take(i + 1).drop_last() =~= all.take(i as int));
            reveal(Seq::filter);
        }
        if text::spells(piece, "..") {
            proof {
                lemma_filter_contains(all, named, i as int);
            }
            return None;
        }
        if piece.len() > 0 && !text::spells(piece, ".") {
            parts.push(piece);
            assert(text::views(parts@) =~= text::views(before).push(piece@));
        }
        i += 1;
    }
    assert(all.take(i as int) =~= all);
    if parts.len() == 0 {
        return None;
    }
    let joined = text::join(&parts, "/");
    let found = NormalizedPath::new(text::string_of(&joined).as_str());
    if found.is_absolute() || climbs(&found) {
        return None;
    }
    Some(found)
}

/// Whether a path climbs.
fn climbs(p: &NormalizedPath) -> (r: bool)
    ensures
        r == path::segments_of(p@).contains(path::up()),
{
    let segments = p.segments();
    let ghost all = path::segments_of(p@);
    proof {
        reveal_strlit("..");
        assert(".."@ =~= path::up());
    }
    let mut i: usize = 0;
    while i < segments.len()
        invariant
            i <= segments@.len(),
            all == text::strings(segments@),
            all == path::segments_of(p@),
            ".."@ == path::up(),
            forall|j: int| 0 <= j < i ==> #[trigger] all[j] != path::up(),
        decreases segments@.len() - i,
    {
        assert(all[i as int] == segments@[i as int]@);
        if text::same_text(segments[i].as_str(), "..") {
            return true;
        }
        i += 1;
    }
    assert(all.len() == segments@.len());
    false
}

proof fn lemma_filter_contains<T>(list: Seq<T>, keep: spec_fn(T) -> bool, at: int)
    requires
        0 <= at < list.len(),
        keep(list[at]),
    ensures
        list.filter(keep).contains(list[at]),
    decreases list.len(),
{
    reveal(Seq::filter);
    if at == list.len() - 1 {
        assert(list.filter(keep).last() == list[at]);
    } else {
        let front = list.drop_last();
        lemma_filter_contains(front, keep, at);
        let k = choose|k: int|
            0 <= k < front.filter(keep).len() && front.filter(keep)[k] == front[at];
        assert(list.filter(keep)[k] == list[at]);
    }
}

/// No file of a tarball ends up outside its package.
pub proof fn package_paths_stay_inside(path: Seq<u8>)
    ensures
        package_path(path) matches Some(p) ==> path::is_normal(p) && stays_inside(p),
{
    if package_path(path) is Some {
        let rest = path.skip(first_slash(path) as int + 1);
        path::normalizing_yields_a_normal_form(
            text::joined(named_pieces(vstd::utf8::decode_utf8(rest)), seq!['/']),
        );
    }
}

// ---------------------------------------------------------------------------
// Filing a tarball into the store.

/// An object to write.
#[derive(PartialEq, Eq, Debug)]
pub struct Write {
    pub contents: Vec<u8>,
    /// Where some of the files are in the store and the index is not.
    pub checkpoint: Option<FaultPoint>,
}

/// What a `Write` stands for.
#[verifier::ext_equal]
pub struct WriteModel {
    pub contents: Seq<u8>,
    pub checkpoint: Option<FaultPoint>,
}

impl View for Write {
    type V = WriteModel;

    open spec fn view(&self) -> WriteModel {
        WriteModel { contents: self.contents@, checkpoint: self.checkpoint }
    }
}

/// What filing a tarball comes to: the objects to write, in order, and then the
/// index, or why there is none.
#[derive(Debug)]
pub struct Ingest {
    pub writes: Vec<Write>,
    pub end: Result<PackageIndex, PackageError>,
}

/// Why a tarball has no index.
#[verifier::ext_equal]
pub enum Refusal {
    Tarball(Seq<char>),
    Contents(Seq<char>),
    Empty,
}

/// How far filing a tarball has come.
#[verifier::ext_equal]
pub struct Filing {
    pub writes: Seq<WriteModel>,
    pub files: Files,
    pub refusal: Option<Refusal>,
}

/// Whether any execute bit is set; a mode that cannot be read counts as none.
pub open spec fn is_executable(mode: Option<u32>) -> bool {
    mode matches Some(bits) && bits & 0o111 != 0
}

/// The filing after one more member. Directories are implied by the files inside
/// them, and links and devices are not reproduced, so only files count.
pub open spec fn with_member(done: Filing, member: MemberModel) -> Filing {
    if done.refusal is Some {
        done
    } else {
        match (package_path(member.path), member.contents) {
            (Some(p), Some(Ok(bytes))) => {
                let files = sorted::put(
                    done.files,
                    p,
                    PackageFileModel {
                        hash: hash::blake3_digest(bytes),
                        executable: is_executable(member.mode),
                        size: member.size,
                    },
                );
                Filing {
                    writes: done.writes.push(
                        WriteModel {
                            contents: bytes,
                            checkpoint: if files.len() == 1 {
                                Some(FaultPoint::PmMidExtract)
                            } else {
                                None
                            },
                        },
                    ),
                    files,
                    refusal: None,
                }
            },
            (Some(p), Some(Err(message))) => Filing {
                refusal: Some(Refusal::Contents(message)),
                ..done
            },
            (None, Some(Err(message))) => Filing {
                refusal: Some(Refusal::Tarball(message)),
                ..done
            },
            (_, None) | (None, Some(Ok(_))) => done,
        }
    }
}

/// The filing after all members.
pub open spec fn filed(members: Seq<MemberModel>) -> Filing
    decreases members.len(),
{
    if members.len() == 0 {
        Filing { writes: Seq::empty(), files: Seq::empty(), refusal: None }
    } else {
        with_member(filed(members.drop_last()), members.last())
    }
}

/// Why an archive has no index, if it has none: something in it could not be
/// read, or it holds no files.
pub open spec fn refusal_of(archive: ArchiveModel) -> Option<Refusal> {
    let done = filed(archive.members);
    if done.refusal is Some {
        done.refusal
    } else if archive.failure is Some {
        Some(Refusal::Tarball(archive.failure->0))
    } else if done.files.len() == 0 {
        Some(Refusal::Empty)
    } else {
        None
    }
}

/// Whether an `Ingest` is what an archive comes to.
pub open spec fn is_ingest_of(
    r: Ingest,
    name: Seq<char>,
    version: VersionModel,
    temp: Seq<char>,
    archive: ArchiveModel,
) -> bool {
    &&& sorted::list_views(r.writes@) == filed(archive.members).writes
    &&& match (refusal_of(archive), r.end) {
        (None, Ok(index)) => index@ == (PackageIndexModel {
            format: INDEX_FORMAT_VERSION,
            name,
            version,
            files: filed(archive.members).files,
        }),
        (Some(Refusal::Tarball(why)), Err(PackageError::Tarball { name: n, version: v, message })) =>
            n@ == name && v@ == version && message@ == why,
        (Some(Refusal::Contents(why)), Err(PackageError::Cas(CasError::Io { path, message }))) =>
            path@ == temp && message@ == why,
        (Some(Refusal::Empty), Err(PackageError::Empty { name: n, version: v })) => n@ == name
            && v@ == version,
        _ => false,
    }
}

/// Plans the filing of an archive that was read. Contents that cannot be read fail
/// in the store, where they are on their way through its temporary directory.
pub fn file_archive(name: &str, version: &Version, temp: &str, archive: &Archive) -> (r: Ingest)
    ensures
        is_ingest_of(r, name@, version@, temp@, archive@),
{
    let mut writes: Vec<Write> = Vec::new();
    let mut files: SortedMap<NormalizedPath, PackageFile> = SortedMap::new();
    let mut i: usize = 0;
    let ghost all = archive@.members;
    assert(sorted::list_views(writes@) =~= Seq::empty());
    assert(all.take(0) =~= Seq::empty());
    while i < archive.members.len()
        invariant
            i <= archive.members@.len(),
            all == archive@.members,
            all.len() == archive.members@.len(),
            filed(all.take(i as int)) == (Filing {
                writes: sorted::list_views(writes@),
                files: files@,
                refusal: None,
            }),
        decreases archive.members@.len() - i,
    {
        let member = &archive.members[i];
        let ghost before = sorted::list_views(writes@);
        proof {
            assert(all[i as int] == member@);
            assert(all.take(i + 1).drop_last() =~= all.take(i as int));
        }
        let found = strip_package_root(&member.path);
        let wanted = found.is_some();
        match &member.contents {
            Some(Err(message)) => {
                proof {
                    lemma_refused(all, i + 1);
                    assert(archive@.members == all);
                }
                let end = if wanted {
                    PackageError::Cas(
                        CasError::Io { path: temp.to_string(), message: message.clone() },
                    )
                } else {
                    PackageError::Tarball {
                        name: name.to_string(),
                        version: version.clone(),
                        message: message.clone(),
                    }
                };
                return Ingest { writes, end: Err(end) };
            },
            Some(Ok(bytes)) => {
                if let Some(path) = found {
                    let mode = match member.mode {
                        Some(mode) => mode,
                        None => 0o644,
                    };
                    assert(0o644u32 & 0o111 == 0) by (bit_vector);
                    let file = PackageFile {
                        hash: ContentHash::of(bytes),
                        executable: mode & 0o111 != 0,
                        size: member.size,
                    };
                    files.insert(path, file);
                    let checkpoint = if files.len() == 1 {
                        Some(FaultPoint::PmMidExtract)
                    } else {
                        None
                    };
                    let write = Write { contents: bytes.clone(), checkpoint };
                    assert(write.contents@ =~= bytes@);
                    writes.push(write);
                    assert(sorted::list_views(writes@) =~= before.push(write@));
                }
            },
            None => {},
        }
        i += 1;
    }
    assert(all.take(i as int) =~= all);
    if let Some(message) = &archive.failure {
        return Ingest {
            writes,
            end: Err(
                PackageError::Tarball {
                    name: name.to_string(),
                    version: version.clone(),
                    message: message.clone(),
                },
            ),
        };
    }
    if files.is_empty() {
        return Ingest {
            writes,
            end: Err(
                PackageError::Empty { name: name.to_string(), version: version.clone() },
            ),
        };
    }
    Ingest {
        writes,
        end: Ok(
            PackageIndex {
                format: INDEX_FORMAT_VERSION,
                name: name.to_string(),
                version: version.clone(),
                files,
            },
        ),
    }
}

/// Nothing changes after a refusal.
proof fn lemma_refused(members: Seq<MemberModel>, n: int)
    requires
        0 <= n <= members.len(),
        filed(members.take(n)).refusal is Some,
    ensures
        filed(members) == filed(members.take(n)),
    decreases members.len() - n,
{
    if n == members.len() {
        assert(members.take(n) =~= members);
    } else {
        assert(members.take(n + 1).drop_last() =~= members.take(n));
        lemma_refused(members, n + 1);
    }
}

/// The files of a package are in order.
proof fn lemma_files_ascending(members: Seq<MemberModel>)
    ensures
        sorted::ascending(filed(members).files),
    decreases members.len(),
{
    if members.len() > 0 {
        lemma_files_ascending(members.drop_last());
        let member = members.last();
        if let (Some(p), Some(Ok(bytes))) = (package_path(member.path), member.contents) {
            sorted::lemma_put_ascending(
                filed(members.drop_last()).files,
                p,
                PackageFileModel {
                    hash: hash::blake3_digest(bytes),
                    executable: is_executable(member.mode),
                    size: member.size,
                },
            );
        }
    }
}

/// Whether a member is a file of the package at a path.
pub open spec fn is_file_at(member: MemberModel, p: Seq<char>) -> bool {
    package_path(member.path) == Some(p) && (member.contents matches Some(contents)
        && contents is Ok)
}

/// Every file of a tarball that can be read becomes an entry of the index, under
/// its path in the package, with its hash, its size and whether it is executable,
/// unless a later one has the same path.
pub proof fn members_become_files(members: Seq<MemberModel>, i: int, p: Seq<char>)
    requires
        0 <= i < members.len(),
        filed(members).refusal is None,
        is_file_at(members[i], p),
        forall|j: int| i < j < members.len() ==> !is_file_at(#[trigger] members[j], p),
    ensures
        sorted::lookup(filed(members).files, p) == Some(
            PackageFileModel {
                hash: hash::blake3_digest(members[i].contents->0->Ok_0),
                executable: is_executable(members[i].mode),
                size: members[i].size,
            },
        ),
    decreases members.len(),
{
    let front = members.drop_last();
    let member = members.last();
    lemma_files_ascending(front);
    assert(member == members[members.len() - 1]);
    if i < front.len() {
        assert(front[i] == members[i]);
        assert forall|j: int| i < j < front.len() implies !is_file_at(#[trigger] front[j], p) by {
            assert(front[j] == members[j]);
        }
        members_become_files(front, i, p);
    }
    if let (Some(q), Some(Ok(bytes))) = (package_path(member.path), member.contents) {
        sorted::lemma_put_lookup(
            filed(front).files,
            q,
            PackageFileModel {
                hash: hash::blake3_digest(bytes),
                executable: is_executable(member.mode),
                size: member.size,
            },
            p,
        );
        crate::order::lemma_text_rank_injective(p, q);
    }
}

/// Every file of an index has been written before it, under the hash that the
/// index holds, and stays inside the package.
pub proof fn indexes_name_written_files(members: Seq<MemberModel>, i: int)
    requires
        0 <= i < filed(members).files.len(),
    ensures
        stays_inside(filed(members).files[i].0),
        exists|k: int|
            0 <= k < filed(members).writes.len() && hash::blake3_digest(
                (#[trigger] filed(members).writes[k]).contents,
            ) == filed(members).files[i].1.hash,
    decreases members.len(),
{
    let front = filed(members.drop_last());
    let member = members.last();
    let all = filed(members);
    if all.files == front.files {
        indexes_name_written_files(members.drop_last(), i);
        let k = choose|k: int|
            0 <= k < front.writes.len() && hash::blake3_digest(
                (#[trigger] front.writes[k]).contents,
            ) == front.files[i].1.hash;
        assert(all.writes[k] == front.writes[k]);
    } else {
        let p = package_path(member.path)->0;
        sorted::lemma_slot(front.files, p);
        let at = sorted::slot(front.files, p) as int;
        let last = all.writes.len() - 1;
        let bytes = member.contents->0->Ok_0;
        assert(all.writes[last].contents == bytes);
        if i == at {
            assert(all.files[i].1.hash == hash::blake3_digest(bytes));
            if sorted::holds(front.files, p) {
                indexes_name_written_files(members.drop_last(), i);
            }
        } else {
            let j = if sorted::holds(front.files, p) || i < at {
                i
            } else {
                i - 1
            };
            assert(all.files[i] == front.files[j]);
            indexes_name_written_files(members.drop_last(), j);
            let k = choose|k: int|
                0 <= k < front.writes.len() && hash::blake3_digest(
                    (#[trigger] front.writes[k]).contents,
                ) == front.files[j].1.hash;
            assert(all.writes[k] == front.writes[k]);
        }
    }
}

/// Only a file of the tarball is a file of the index: what is neither a regular
/// file nor inside the package has no entry.
pub proof fn files_come_from_members(members: Seq<MemberModel>, p: Seq<char>)
    requires
        forall|i: int| 0 <= i < members.len() ==> !is_file_at(#[trigger] members[i], p),
    ensures
        !sorted::holds(filed(members).files, p),
    decreases members.len(),
{
    if members.len() > 0 {
        let front = members.drop_last();
        let member = members.last();
        assert forall|i: int| 0 <= i < front.len() implies !is_file_at(#[trigger] front[i], p) by {
            assert(front[i] == members[i]);
        }
        files_come_from_members(front, p);
        lemma_files_ascending(front);
        lemma_files_ascending(members);
        assert(!is_file_at(members[members.len() - 1], p));
        if let (Some(q), Some(Ok(bytes))) = (package_path(member.path), member.contents) {
            sorted::lemma_put_lookup(
                filed(front).files,
                q,
                PackageFileModel {
                    hash: hash::blake3_digest(bytes),
                    executable: is_executable(member.mode),
                    size: member.size,
                },
                p,
            );
            crate::order::lemma_text_rank_injective(p, q);
        }
    }
}

/// What every file of a tarball holds is written.
proof fn lemma_written(members: Seq<MemberModel>, i: int, p: Seq<char>)
    requires
        0 <= i < members.len(),
        filed(members).refusal is None,
        is_file_at(members[i], p),
    ensures
        exists|k: int|
            0 <= k < filed(members).writes.len() && (#[trigger] filed(members).writes[k]).contents
                == members[i].contents->0->Ok_0,
    decreases members.len(),
{
    let front = members.drop_last();
    let all = filed(members).writes;
    if i < front.len() {
        assert(front[i] == members[i]);
        lemma_written(front, i, p);
        let before = filed(front).writes;
        let k = choose|k: int|
            0 <= k < before.len() && (#[trigger] before[k]).contents
                == members[i].contents->0->Ok_0;
        assert(all[k] == before[k]);
    } else {
        assert(members[i] == members.last());
        assert(all[all.len() - 1].contents == members[i].contents->0->Ok_0);
    }
}

proof fn lemma_first_slash(root: Seq<u8>, rest: Seq<u8>)
    requires
        !root.contains(47),
    ensures
        first_slash(root + seq![47u8] + rest) == root.len(),
    decreases root.len(),
{
    let whole = root + seq![47u8] + rest;
    if root.len() > 0 {
        let later = root.skip(1);
        assert(root[0] != 47) by {
            if root[0] == 47 {
                assert(root.contains(47));
            }
        }
        assert(!later.contains(47)) by {
            if later.contains(47) {
                let k = choose|k: int| 0 <= k < later.len() && later[k] == 47;
                assert(root[k + 1] == 47);
            }
        }
        lemma_first_slash(later, rest);
        assert(whole.skip(1) =~= later + seq![47u8] + rest);
    } else {
        assert(whole[0] == 47);
    }
}

proof fn lemma_filter_of_all<T>(list: Seq<T>, keep: spec_fn(T) -> bool)
    requires
        forall|i: int| 0 <= i < list.len() ==> keep(#[trigger] list[i]),
    ensures
        list.filter(keep) == list,
    decreases list.len(),
{
    reveal(Seq::filter);
    if list.len() > 0 {
        let front = list.drop_last();
        assert forall|i: int| 0 <= i < front.len() implies keep(#[trigger] front[i]) by {
            assert(front[i] == list[i]);
        }
        lemma_filter_of_all(front, keep);
        assert(keep(list[list.len() - 1]));
        assert(front.push(list.last()) =~= list);
    } else {
        assert(list.filter(keep) =~= list);
    }
}

/// The path of a member: a root directory of its own, and names below it.
pub open spec fn member_path(root: Seq<u8>, parts: Seq<Seq<char>>) -> Seq<u8> {
    root + seq![47u8] + vstd::utf8::encode_utf8(text::joined(parts, seq!['/']))
}

/// A name for the root directory of a tarball.
pub open spec fn is_root_name(root: Seq<u8>) -> bool {
    root.len() > 0 && !root.contains(47) && root != seq![46u8] && root != seq![46u8, 46u8]
}

/// Whatever the root directory of a tarball is called, a file below it is found at
/// its path behind it.
pub proof fn roots_are_stripped(root: Seq<u8>, parts: Seq<Seq<char>>)
    requires
        is_root_name(root),
        path::are_names(parts),
    ensures
        package_path(member_path(root, parts)) == Some(text::joined(parts, seq!['/'])),
{
    broadcast use vstd::utf8::encode_utf8_valid_utf8, vstd::utf8::encode_utf8_decode_utf8;

    let p = text::joined(parts, seq!['/']);
    let rest = vstd::utf8::encode_utf8(p);
    let whole = member_path(root, parts);
    lemma_first_slash(root, rest);
    assert(whole.take(root.len() as int) =~= root);
    assert(whole.skip(root.len() as int + 1) =~= rest);
    path::plain_paths_are_normal(parts);
    let keep = |s: Seq<char>| s.len() > 0 && s != path::here();
    assert forall|i: int| 0 <= i < parts.len() implies keep(#[trigger] parts[i]) by {
        assert(path::is_segment(parts[i]));
    }
    lemma_filter_of_all(parts, keep);
    assert(!parts.contains(path::up()));
}

/// A tarball that was taken in is indexed under the name and version it was asked
/// for by. The index finds each of its files at its path, spelled plainly or with
/// `./` in front: the hash and the length of what it holds, and whether it is
/// executable. What it holds has been written.
pub proof fn ingested_files_are_found(
    plan: Ingest,
    name: Seq<char>,
    version: VersionModel,
    temp: Seq<char>,
    archive: ArchiveModel,
    i: int,
    root: Seq<u8>,
    parts: Seq<Seq<char>>,
)
    requires
        is_ingest_of(plan, name, version, temp, archive),
        plan.end is Ok,
        are_whole(archive.members),
        0 <= i < archive.members.len(),
        is_root_name(root) && path::are_names(parts),
        archive.members[i].path == member_path(root, parts),
        archive.members[i].contents matches Some(contents) && contents is Ok,
        forall|j: int|
            i < j < archive.members.len() ==> !is_file_at(
                #[trigger] archive.members[j],
                text::joined(parts, seq!['/']),
            ),
    ensures
        ({
            let index = plan.end->Ok_0@;
            let p = text::joined(parts, seq!['/']);
            let bytes = archive.members[i].contents->0->Ok_0;
            let found = sorted::lookup(index.files, path::normal(p));
            &&& index.name == name && index.version == version
            &&& found matches Some(file) && file.hash == hash::blake3_digest(bytes) && file.size
                == bytes.len() && file.executable == is_executable(archive.members[i].mode)
            &&& sorted::lookup(index.files, path::normal(path::here() + seq!['/'] + p)) == found
            &&& exists|k: int|
                0 <= k < plan.writes@.len() && (#[trigger] plan.writes@[k])@.contents == bytes
        }),
{
    let members = archive.members;
    let p = text::joined(parts, seq!['/']);
    let bytes = members[i].contents->0->Ok_0;
    roots_are_stripped(root, parts);
    path::plain_paths_are_normal(parts);
    assert(is_file_at(members[i], p));
    members_become_files(members, i, p);
    lemma_written(members, i, p);
    let writes = filed(members).writes;
    let k = choose|k: int| 0 <= k < writes.len() && (#[trigger] writes[k]).contents == bytes;
    assert(sorted::list_views(plan.writes@)[k] == plan.writes@[k]@);
}

// ---------------------------------------------------------------------------
// The store of packages.

/// A pointer from a published tarball to its index.
#[derive(PartialEq, Eq, Debug)]
pub struct Pointer {
    pub path: NativePath,
    pub target: ContentHash,
}

/// What a `Pointer` stands for.
#[verifier::ext_equal]
pub struct PointerModel {
    pub path: NativePathModel,
    pub target: Seq<u8>,
}

impl View for Pointer {
    type V = PointerModel;

    open spec fn view(&self) -> PointerModel {
        PointerModel { path: self.path@, target: self.target@ }
    }
}

impl Rank for PointerModel {
    open spec fn rank(self) -> Seq<int> {
        self.path.rank()
    }
}

impl Ranked for Pointer {
    fn compare(&self, other: &Self) -> (r: Order) {
        self.path.compare(&other.path)
    }
}

/// What the text of a pointer names: a hash, with any space around it.
pub open spec fn pointer_target_of(content: Seq<char>) -> Option<Seq<u8>> {
    let s = text::trimmed(content);
    if hash::utf8_len(s) == 64 {
        hash::hash_of_hex(s)
    } else {
        None
    }
}

/// What the text of a pointer names. A pointer that names nothing is as good as
/// no pointer: filing the tarball again is always correct.
pub fn pointer_target(content: &str) -> (r: Option<ContentHash>)
    ensures
        text::view_of(r) == pointer_target_of(content@),
{
    let chars = text::chars_of(content);
    let trimmed = text::string_of(text::trim(&chars));
    match ContentHash::parse_hex(trimmed.as_str()) {
        Ok(hash) => Some(hash),
        Err(_) => None,
    }
}

/// The text of a pointer to an index.
pub open spec fn pointer_text_of(target: Seq<u8>) -> Seq<char> {
    hash::hex(target) + "\n"@
}

/// The text of a pointer to an index.
pub fn pointer_text(target: &ContentHash) -> (r: String)
    ensures
        r@ == pointer_text_of(target@),
{
    text::concat(target.to_hex(), "\n")
}

/// A pointer reads back as what it was written for.
pub proof fn pointers_read_back(target: Seq<u8>)
    requires
        target.len() == 32,
    ensures
        pointer_target_of(pointer_text_of(target)) == Some(target),
{
    reveal_strlit("\n");
    let s = hash::hex(target);
    hash::hash_reads_back(target);
    hash::lemma_hex_plain(target);
    let t = pointer_text_of(target);
    assert(t[0] == s[0]);
    assert(text::trimmed_start(t) == t);
    assert(t.drop_last() =~= s);
    assert(text::trimmed_end(t) == text::trimmed_end(s));
}

/// A pointer file that was found: its path, and its text where it is readable.
#[derive(Debug)]
pub struct PointerFile {
    pub path: NativePath,
    pub content: Option<String>,
}

/// The pointers among files, in the order in which the files were found.
pub open spec fn pointers_in(files: Seq<PointerFile>) -> Seq<PointerModel>
    decreases files.len(),
{
    if files.len() == 0 {
        Seq::empty()
    } else {
        let front = pointers_in(files.drop_last());
        match files.last().content {
            Some(content) => match pointer_target_of(content@) {
                Some(target) => front.push(PointerModel { path: files.last().path@, target }),
                None => front,
            },
            None => front,
        }
    }
}

/// Every pointer among the files, by path. A file is listed once.
///
/// Used by the collector to drop pointers whose index is gone.
pub fn pointer_entries(files: &Vec<PointerFile>) -> (r: Vec<Pointer>)
    ensures
        sorted::list_views(r@) == sorted::stable_sorted(pointers_in(files@)),
{
    let mut out: Vec<Pointer> = Vec::new();
    let mut i: usize = 0;
    assert(sorted::list_views(out@) =~= Seq::empty());
    while i < files.len()
        invariant
            i <= files@.len(),
            sorted::list_views(out@) == pointers_in(files@.take(i as int)),
        decreases files@.len() - i,
    {
        let ghost before = sorted::list_views(out@);
        assert(files@.take(i + 1).drop_last() =~= files@.take(i as int));
        if let Some(content) = &files[i].content {
            if let Some(target) = pointer_target(content.as_str()) {
                let pointer = Pointer { path: files[i].path.clone(), target };
                out.push(pointer);
                assert(sorted::list_views(out@) =~= before.push(pointer@));
            }
        }
        i += 1;
    }
    assert(files@.take(i as int) =~= files@);
    sorted::sort(out)
}

/// The store, plus the pointers from a published tarball to its index.
#[derive(Debug)]
pub struct PackageStore {
    cas: Cas,
    root: String,
    pointers: String,
}

/// The directory that holds pointers.
pub open spec fn pointers_dir(root: Seq<char>) -> Seq<char> {
    native::joined_native(root, "packages"@)
}

/// Where the pointer of a tarball is.
pub open spec fn pointer_path_of(root: Seq<char>, integrity: integrity::IntegrityModel) -> Seq<
    char,
> {
    let key = hash::hex(
        hash::key_of(
            seq![
                hash::text_part("opal.pm.tarball.v1"@),
                hash::text_part(integrity::integrity_text(integrity)),
            ],
        ),
    );
    native::joined_native(native::joined_native(pointers_dir(root), key.subrange(0, 2)), key)
}

impl PackageStore {
    #[verifier::type_invariant]
    spec fn laid_out(self) -> bool {
        self.pointers@ == pointers_dir(self.root@)
    }

    /// The root of the caches.
    pub closed spec fn at_root(&self) -> Seq<char> {
        self.root@
    }

    /// The root of the objects.
    pub closed spec fn objects_root(&self) -> Seq<char> {
        self.cas@
    }

    /// The package store of a cache.
    pub fn at(cas: Cas, cache_root: &str) -> (r: Self)
        ensures
            r.objects_root() == cas@,
            r.at_root() == cache_root@,
    {
        PackageStore {
            cas,
            root: cache_root.to_string(),
            pointers: native::join(cache_root, "packages"),
        }
    }

    /// The objects.
    pub fn cas(&self) -> (r: &Cas)
        ensures
            r@ == self.objects_root(),
    {
        &self.cas
    }

    /// The root of the caches.
    pub fn cache_root(&self) -> (r: &str)
        ensures
            r@ == self.at_root(),
    {
        self.root.as_str()
    }

    /// The directory that holds pointers.
    pub fn pointers(&self) -> (r: &str)
        ensures
            r@ == pointers_dir(self.at_root()),
    {
        proof {
            use_type_invariant(self);
        }
        self.pointers.as_str()
    }

    /// Where the pointer of a tarball is.
    pub fn pointer_path(&self, integrity: &Integrity) -> (r: String)
        ensures
            r@ == pointer_path_of(self.at_root(), integrity@),
    {
        proof {
            use_type_invariant(self);
        }
        let mut builder = HashBuilder::new("opal.pm.tarball.v1");
        let ghost domain = hash::text_part("opal.pm.tarball.v1"@);
        builder.push_str(integrity.to_string().as_str());
        let key = builder.finish().to_hex();
        proof {
            let part = hash::text_part(integrity::integrity_text(integrity@));
            hash::lemma_framed_push(seq![domain], part);
            assert(seq![domain].push(part) =~= seq![domain, part]);
        }
        let shard = native::join(self.pointers.as_str(), key.as_str().substring_char(0, 2));
        native::join(shard.as_str(), key.as_str())
    }

    /// Verifies a tarball and plans its filing. Nothing of a tarball whose
    /// integrity does not match is planned.
    ///
    /// Safe to carry out twice: every write underneath is content-addressed or
    /// atomic, so one that was interrupted leaves at worst some verified objects
    /// and no pointer, and the next run redoes exactly the missing part.
    pub fn ingest(
        &self,
        name: &str,
        version: &Version,
        integrity: &Integrity,
        tarball: &[u8],
    ) -> (r: Result<Ingest, PackageError>)
        ensures
            match r {
                Ok(plan) => {
                    &&& integrity::digest_by(integrity@.algorithm, tarball@) == integrity@.digest
                    &&& is_ingest_of(
                        plan,
                        name@,
                        version@,
                        cas::tmp_dir(self.objects_root()),
                        archive_in(tarball@),
                    )
                    &&& plan.end is Ok ==> are_whole(archive_in(tarball@).members)
                },
                Err(PackageError::Integrity(IntegrityError::Mismatch { expected, actual })) => {
                    let found = IntegrityModel {
                        algorithm: integrity@.algorithm,
                        digest: integrity::digest_by(integrity@.algorithm, tarball@),
                    };
                    &&& found != integrity@
                    &&& expected@ == integrity::integrity_text(integrity@)
                    &&& actual@ == integrity::integrity_text(found)
                },
                Err(_) => false,
            },
    {
        match integrity.verify(tarball) {
            Ok(_) => {},
            Err(e) => {
                return Err(PackageError::Integrity(e));
            },
        }
        let archive = read_archive(tarball);
        Ok(file_archive(name, version, self.cas.temp_dir(), &archive))
    }
}

/// A file is executable if its mode lets anyone execute it, be it the owner, the group or
/// the others.
pub proof fn any_execute_bit_counts(bits: u32)
    ensures
        is_executable(Some(bits)) <==> (bits / 64) % 2 == 1 || (bits / 8) % 2 == 1 || bits % 2 == 1,
        !is_executable(None),
{
    assert(bits & 0o111 != 0 <==> (bits / 64) % 2 == 1 || (bits / 8) % 2 == 1 || bits % 2 == 1)
        by (bit_vector);
}

/// Wherever a package is put, each of its files ends up below that directory.
pub proof fn files_end_up_below_their_package(path: Seq<u8>, directory: Seq<Seq<char>>)
    requires
        path::are_names(directory),
        package_path(path) matches Some(p) && p != path::here(),
    ensures
        ({
            let d = text::joined(directory, seq!['/']);
            let p = package_path(path)->0;
            path::joined_path(d, p) == d + seq!['/'] + p && path::within_path(
                path::joined_path(d, p),
                d,
            )
        }),
{
    let rest = path.skip(first_slash(path) as int + 1);
    let raw = text::joined(named_pieces(vstd::utf8::decode_utf8(rest)), seq!['/']);
    path::lemma_lies_below(directory, raw);
}

proof fn lemma_filed_whole(members: Seq<MemberModel>)
    ensures
        filed(members).refusal is None <==> forall|i: int|
            0 <= i < members.len() ==> ((#[trigger] members[i]).contents matches Some(contents)
                ==> contents is Ok),
        filed(members).refusal is None ==> (filed(members).files.len() > 0 <==> exists|i: int|
            0 <= i < members.len() && package_path((#[trigger] members[i]).path) is Some
                && members[i].contents is Some),
    decreases members.len(),
{
    if members.len() > 0 {
        let front = members.drop_last();
        let last = members[members.len() - 1];
        lemma_filed_whole(front);
        lemma_files_ascending(front);
        assert(members.last() == last);
        if filed(members).refusal is None {
            assert forall|i: int| 0 <= i < members.len() implies ((
            #[trigger] members[i]).contents matches Some(contents) ==> contents is Ok) by {
                if i < front.len() {
                    assert(front[i] == members[i]);
                }
            }
            if exists|i: int|
                0 <= i < front.len() && package_path((#[trigger] front[i]).path) is Some
                    && front[i].contents is Some {
                let i = choose|i: int|
                    0 <= i < front.len() && package_path((#[trigger] front[i]).path) is Some
                        && front[i].contents is Some;
                assert(members[i] == front[i]);
            }
            if exists|i: int|
                0 <= i < members.len() && package_path((#[trigger] members[i]).path) is Some
                    && members[i].contents is Some {
                let i = choose|i: int|
                    0 <= i < members.len() && package_path((#[trigger] members[i]).path) is Some
                        && members[i].contents is Some;
                if i < front.len() {
                    assert(front[i] == members[i]);
                }
            }
        } else if forall|i: int|
            0 <= i < members.len() ==> ((#[trigger] members[i]).contents matches Some(contents)
                ==> contents is Ok) {
            assert forall|i: int| 0 <= i < front.len() implies ((
            #[trigger] front[i]).contents matches Some(contents) ==> contents is Ok) by {
                assert(front[i] == members[i]);
            }
            assert(members[members.len() - 1] == last);
        }
    }
}

/// An archive becomes a package only if it can be read to its end, with the contents of
/// every file in it, and holds at least one file that has a place in a package.
pub proof fn broken_archives_are_refused(archive: ArchiveModel)
    ensures
        refusal_of(archive) is None <==> {
            &&& archive.failure is None
            &&& forall|i: int|
                0 <= i < archive.members.len() ==> ((
                #[trigger] archive.members[i]).contents matches Some(contents) ==> contents is Ok)
            &&& exists|i: int|
                0 <= i < archive.members.len() && package_path(
                    (#[trigger] archive.members[i]).path,
                ) is Some && archive.members[i].contents is Some
        },
{
    lemma_filed_whole(archive.members);
}

} // verus!
