//! A registry made of files, for tests.
//!
//! The install pipeline's most important properties (crash convergence,
//! concurrency, layout) cannot be tested against the public registry: the
//! network makes them slow and flaky. Pointing `$OPAL_REGISTRY` at one of these
//! exercises the real client, the real integrity check, and the real tarball
//! reader. What is published is decided here; writing it is the caller's.

use std::io::Write;
use vstd::prelude::*;
use crate::integrity::{Integrity, IntegrityModel};
use crate::json::{Json, JsonModel};
use crate::order::{Order, Rank, Ranked};
use crate::sorted::SortedMap;
use crate::{integrity, json, native, order, package, sorted, text};

verus! {

/// A file of a package to publish.
#[derive(PartialEq, Eq, Debug)]
pub struct FixtureFile {
    pub path: String,
    pub contents: Vec<u8>,
    pub executable: bool,
}

/// What a `FixtureFile` stands for.
#[verifier::ext_equal]
pub struct FixtureFileModel {
    pub path: Seq<char>,
    pub contents: Seq<u8>,
    pub executable: bool,
}

impl View for FixtureFile {
    type V = FixtureFileModel;

    open spec fn view(&self) -> FixtureFileModel {
        FixtureFileModel {
            path: self.path@,
            contents: self.contents@,
            executable: self.executable,
        }
    }
}

impl Clone for FixtureFile {
    fn clone(&self) -> (r: Self)
        ensures
            r@ == self@,
    {
        let mut contents: Vec<u8> = Vec::new();
        contents.extend_from_slice(&self.contents);
        assert(contents@ =~= self.contents@);
        FixtureFile { path: self.path.clone(), contents, executable: self.executable }
    }
}

/// Bytes as the characters with their numbers.
pub open spec fn byte_chars(bytes: Seq<u8>) -> Seq<char> {
    bytes.map_values(|b: u8| b as char)
}

/// The number of a flag.
pub open spec fn flag_rank(flag: bool) -> Seq<int> {
    if flag {
        seq![1int]
    } else {
        seq![0int]
    }
}

impl Rank for FixtureFileModel {
    /// By path first, by contents second, and files that can be run last.
    open spec fn rank(self) -> Seq<int> {
        order::closed_text(self.path) + (order::closed_text(byte_chars(self.contents)) + flag_rank(
            self.executable,
        ))
    }
}

fn as_chars(bytes: &Vec<u8>) -> (r: Vec<char>)
    ensures
        r@ == byte_chars(bytes@),
{
    let mut out: Vec<char> = Vec::new();
    let mut i: usize = 0;
    while i < bytes.len()
        invariant
            i <= bytes@.len(),
            out@ == byte_chars(bytes@.take(i as int)),
        decreases bytes@.len() - i,
    {
        out.push(bytes[i] as char);
        assert(out@ =~= byte_chars(bytes@.take(i + 1)));
        i += 1;
    }
    assert(bytes@.take(i as int) =~= bytes@);
    out
}

impl Ranked for FixtureFile {
    fn compare(&self, other: &Self) -> (r: Order) {
        let mine = as_chars(&self.contents);
        let theirs = as_chars(&other.contents);
        proof {
            let a = order::closed_text(mine@) + flag_rank(self.executable);
            let b = order::closed_text(theirs@) + flag_rank(other.executable);
            order::lemma_closed_text(self.path@, other.path@, a, b);
            order::lemma_closed_text(other.path@, self.path@, b, a);
            order::lemma_closed_text(
                mine@,
                theirs@,
                flag_rank(self.executable),
                flag_rank(other.executable),
            );
            order::lemma_closed_text(
                theirs@,
                mine@,
                flag_rank(other.executable),
                flag_rank(self.executable),
            );
            order::lemma_irreflexive(flag_rank(self.executable));
            assert(flag_rank(true)[0] == 1 && flag_rank(false)[0] == 0);
        }
        match order::compare_text(self.path.as_str(), other.path.as_str()) {
            Order::Equal => match order::compare_chars(&mine, &theirs) {
                Order::Equal => {
                    if self.executable == other.executable {
                        Order::Equal
                    } else if other.executable {
                        Order::Less
                    } else {
                        Order::Greater
                    }
                },
                decided => decided,
            },
            decided => decided,
        }
    }
}

/// One package version to publish.
#[derive(Debug)]
pub struct Package {
    pub name: String,
    pub version: String,
    pub dependencies: SortedMap<String, String>,
    pub optional_dependencies: SortedMap<String, String>,
    pub peer_dependencies: SortedMap<String, String>,
    pub optional_peers: Vec<String>,
    pub bin: SortedMap<String, String>,
    /// Extra files beyond the generated `package.json`.
    pub files: Vec<FixtureFile>,
}

/// Texts by name.
pub type Texts = Seq<(Seq<char>, Seq<char>)>;

/// What a `Package` stands for.
#[verifier::ext_equal]
pub struct PackageModel {
    pub name: Seq<char>,
    pub version: Seq<char>,
    pub dependencies: Texts,
    pub optional_dependencies: Texts,
    pub peer_dependencies: Texts,
    pub optional_peers: Seq<Seq<char>>,
    pub bin: Texts,
    pub files: Seq<FixtureFileModel>,
}

impl View for Package {
    type V = PackageModel;

    open spec fn view(&self) -> PackageModel {
        PackageModel {
            name: self.name@,
            version: self.version@,
            dependencies: self.dependencies@,
            optional_dependencies: self.optional_dependencies@,
            peer_dependencies: self.peer_dependencies@,
            optional_peers: text::strings(self.optional_peers@),
            bin: self.bin@,
            files: sorted::list_views(self.files@),
        }
    }
}

fn bytes_of(contents: &str) -> (r: Vec<u8>)
    ensures
        r@ == vstd::utf8::encode_utf8(contents@),
{
    let mut bytes: Vec<u8> = Vec::new();
    bytes.extend_from_slice(contents.as_bytes());
    assert(bytes@ =~= vstd::utf8::encode_utf8(contents@));
    bytes
}

impl Package {
    /// A package without dependencies or files of its own.
    pub fn new(name: &str, version: &str) -> (r: Self)
        ensures
            r@ == (PackageModel {
                name: name@,
                version: version@,
                dependencies: Seq::empty(),
                optional_dependencies: Seq::empty(),
                peer_dependencies: Seq::empty(),
                optional_peers: Seq::empty(),
                bin: Seq::empty(),
                files: Seq::empty(),
            }),
    {
        let r = Package {
            name: name.to_string(),
            version: version.to_string(),
            dependencies: SortedMap::new(),
            optional_dependencies: SortedMap::new(),
            peer_dependencies: SortedMap::new(),
            optional_peers: Vec::new(),
            bin: SortedMap::new(),
            files: Vec::new(),
        };
        assert(r@.optional_peers =~= Seq::empty());
        assert(r@.files =~= Seq::empty());
        r
    }

    /// With a dependency.
    pub fn dependency(self, name: &str, spec: &str) -> (r: Self)
        ensures
            r@ == (PackageModel {
                dependencies: sorted::put(self@.dependencies, name@, spec@),
                ..self@
            }),
    {
        let mut r = self;
        r.dependencies.insert(name.to_string(), spec.to_string());
        r
    }

    /// With an optional dependency.
    pub fn optional_dependency(self, name: &str, spec: &str) -> (r: Self)
        ensures
            r@ == (PackageModel {
                optional_dependencies: sorted::put(self@.optional_dependencies, name@, spec@),
                ..self@
            }),
    {
        let mut r = self;
        r.optional_dependencies.insert(name.to_string(), spec.to_string());
        r
    }

    /// With an optional peer dependency.
    pub fn optional_peer(self, name: &str, spec: &str) -> (r: Self)
        ensures
            r@ == (PackageModel {
                peer_dependencies: sorted::put(self@.peer_dependencies, name@, spec@),
                optional_peers: self@.optional_peers.push(name@),
                ..self@
            }),
    {
        let mut r = self;
        let ghost before = r@.optional_peers;
        r.peer_dependencies.insert(name.to_string(), spec.to_string());
        let peer = name.to_string();
        r.optional_peers.push(peer);
        assert(r@.optional_peers =~= before.push(name@));
        r
    }

    fn with_file(self, path: &str, contents: &str, executable: bool) -> (r: Self)
        ensures
            r@ == (PackageModel {
                files: self@.files.push(
                    FixtureFileModel {
                        path: path@,
                        contents: vstd::utf8::encode_utf8(contents@),
                        executable,
                    },
                ),
                ..self@
            }),
    {
        let mut r = self;
        let ghost before = r@.files;
        let file = FixtureFile { path: path.to_string(), contents: bytes_of(contents), executable };
        r.files.push(file);
        assert(r@.files =~= before.push(file@));
        r
    }

    /// With a file.
    pub fn file(self, path: &str, contents: &str) -> (r: Self)
        ensures
            r@ == (PackageModel {
                files: self@.files.push(
                    FixtureFileModel {
                        path: path@,
                        contents: vstd::utf8::encode_utf8(contents@),
                        executable: false,
                    },
                ),
                ..self@
            }),
    {
        self.with_file(path, contents, false)
    }

    /// With a file that can be run.
    pub fn executable(self, path: &str, contents: &str) -> (r: Self)
        ensures
            r@ == (PackageModel {
                files: self@.files.push(
                    FixtureFileModel {
                        path: path@,
                        contents: vstd::utf8::encode_utf8(contents@),
                        executable: true,
                    },
                ),
                ..self@
            }),
    {
        self.with_file(path, contents, true)
    }

    /// With a command.
    pub fn bin(self, command: &str, path: &str) -> (r: Self)
        ensures
            r@ == (PackageModel { bin: sorted::put(self@.bin, command@, path@), ..self@ }),
    {
        let mut r = self;
        r.bin.insert(command.to_string(), path.to_string());
        r
    }
}

/// Whether a package brings a file of its own.
pub open spec fn brings(files: Seq<FixtureFileModel>, path: Seq<char>) -> bool {
    exists|i: int| 0 <= i < files.len() && (#[trigger] files[i]).path == path
}

/// The files of a package as npm would ship it: its manifest, an index where it
/// brings none, and its own files, in order.
pub open spec fn shipped(p: PackageModel, manifest: Seq<u8>) -> Seq<FixtureFileModel> {
    let first = seq![
        FixtureFileModel { path: "package.json"@, contents: manifest, executable: false },
    ];
    let index = if brings(p.files, "index.js"@) {
        Seq::empty()
    } else {
        seq![
            FixtureFileModel {
                path: "index.js"@,
                contents: vstd::utf8::encode_utf8(
                    "module.exports = "@ + text::quoted(p.name) + ";\n"@,
                ),
                executable: false,
            },
        ]
    };
    sorted::stable_sorted(first + index + p.files)
}

impl Package {
    /// The files of the package as npm would ship it, given its manifest.
    pub fn contents(&self, manifest: Vec<u8>) -> (r: Vec<FixtureFile>)
        ensures
            sorted::list_views(r@) == shipped(self@, manifest@),
    {
        let ghost own = self@.files;
        let mut files: Vec<FixtureFile> = Vec::new();
        files.push(
            FixtureFile {
                path: "package.json".to_string(),
                contents: manifest,
                executable: false,
            },
        );
        let ghost first = sorted::list_views(files@);
        let mut brought = false;
        let mut i: usize = 0;
        assert(own.len() == self.files@.len());
        while i < self.files.len() && !brought
            invariant
                i <= self.files@.len(),
                own == sorted::list_views(self.files@),
                own.len() == self.files@.len(),
                brought ==> brings(own, "index.js"@),
                !brought ==> forall|j: int| 0 <= j < i ==> (#[trigger] own[j]).path != "index.js"@,
            decreases self.files@.len() - i,
        {
            assert(own[i as int] == self.files@[i as int]@);
            brought = text::same_text(self.files[i].path.as_str(), "index.js");
            i += 1;
        }
        if !brought {
            let mut out = text::chars_of("module.exports = ");
            text::append_str(&mut out, text::quote(self.name.as_str()).as_str());
            text::append_str(&mut out, ";\n");
            files.push(
                FixtureFile {
                    path: "index.js".to_string(),
                    contents: bytes_of(text::string_of(&out).as_str()),
                    executable: false,
                },
            );
        }
        let ghost start = sorted::list_views(files@);
        let mut k: usize = 0;
        assert(start + own.take(0) =~= start);
        while k < self.files.len()
            invariant
                k <= self.files@.len(),
                own == sorted::list_views(self.files@),
                sorted::list_views(files@) == start + own.take(k as int),
            decreases self.files@.len() - k,
        {
            let ghost before = sorted::list_views(files@);
            let copy = self.files[k].clone();
            files.push(copy);
            proof {
                assert(own[k as int] == copy@);
                assert(sorted::list_views(files@) =~= before.push(copy@));
                assert(start + own.take(k + 1) =~= (start + own.take(k as int)).push(copy@));
            }
            k += 1;
        }
        proof {
            assert(own.take(k as int) =~= own);
            let lead = seq![
                FixtureFileModel {
                    path: "package.json"@,
                    contents: manifest@,
                    executable: false,
                },
            ];
            assert(first =~= lead);
            if brought {
                assert(start + own =~= lead + Seq::empty() + own);
            } else {
                assert(start =~= lead + seq![start[1]]);
            }
        }
        sorted::sort(files)
    }
}

// ---------------------------------------------------------------------------
// Tarballs.

/// The outcome that a result stands for.
pub open spec fn bytes_result(r: Result<Vec<u8>, String>) -> Result<Seq<u8>, Seq<char>> {
    match r {
        Ok(bytes) => Ok(bytes@),
        Err(message) => Err(message@),
    }
}

/// Whether a path is read alike on every platform.
pub open spec fn is_plain_path(path: Seq<char>) -> bool {
    !path.contains('\\') && !path.contains(':')
}

/// The blocks that `tar::Builder::append_data` writes for a file, with a GNU header
/// of the given mode and time, or its error.
pub uninterp spec fn tar_entry(path: Seq<char>, mode: u32, mtime: u64, contents: Seq<u8>) -> Result<
    Seq<u8>,
    Seq<char>,
>;

/// `tar::Builder::append_data` into a new archive: the blocks of one file, without
/// the end of the archive. A path that a platform could read in its own way, with a
/// backslash or a colon, is left unsaid.
#[verifier::external_body]
fn pack_entry(path: &str, mode: u32, mtime: u64, contents: &[u8]) -> (r: Result<Vec<u8>, String>)
    ensures
        is_plain_path(path@) ==> bytes_result(r) == tar_entry(path@, mode, mtime, contents@),
{
    let mut header = tar::Header::new_gnu();
    header.set_size(contents.len() as u64);
    header.set_mode(mode);
    header.set_mtime(mtime);
    header.set_cksum();
    let mut builder = tar::Builder::new(Vec::new());
    match builder.append_data(&mut header, path, contents) {
        Ok(()) => Ok(builder.get_ref().clone()),
        Err(error) => Err(error.to_string()),
    }
}

/// The end of an archive.
pub open spec fn archive_end() -> Seq<u8> {
    Seq::new(1024, |i: int| 0u8)
}

/// `tar::Builder::into_inner` on an archive that holds some blocks: they are
/// followed by two blocks of zeros.
#[verifier::external_body]
fn close_archive(blocks: Vec<u8>) -> (r: Vec<u8>)
    ensures
        r@ == blocks@ + archive_end(),
{
    tar::Builder::new(blocks).into_inner().expect("a vector takes all bytes")
}

/// What `flate2::write::GzEncoder` makes of bytes, at its default level.
pub uninterp spec fn gzipped(bytes: Seq<u8>) -> Seq<u8>;

/// `flate2::write::GzEncoder` over a vector, given all bytes at once. What it
/// writes is read back by `flate2::read::GzDecoder`.
#[verifier::external_body]
fn gzip(bytes: &[u8]) -> (r: Vec<u8>)
    ensures
        r@ == gzipped(bytes@),
        package::gunzipped(r@) == bytes@,
{
    let mut encoder = flate2::write::GzEncoder::new(Vec::new(), flate2::Compression::default());
    encoder.write_all(bytes).expect("a vector takes all bytes");
    encoder.finish().expect("a vector takes all bytes")
}

/// Where a file of a package stands in its tarball.
pub open spec fn packed_path(path: Seq<char>) -> Seq<char> {
    "package/"@ + path
}

/// The mode of a file in a tarball.
pub open spec fn packed_mode(executable: bool) -> u32 {
    if executable {
        0o755
    } else {
        0o644
    }
}

/// The blocks of some files, in order, without times; or the first error.
pub open spec fn packed(files: Seq<FixtureFileModel>) -> Result<Seq<u8>, Seq<char>>
    decreases files.len(),
{
    if files.len() == 0 {
        Ok(Seq::empty())
    } else {
        let last = files.last();
        match packed(files.drop_last()) {
            Err(message) => Err(message),
            Ok(front) => match tar_entry(
                packed_path(last.path),
                packed_mode(last.executable),
                0,
                last.contents,
            ) {
                Err(message) => Err(message),
                Ok(blocks) => Ok(front + blocks),
            },
        }
    }
}

/// Whether all files have plain paths.
pub open spec fn all_plain(files: Seq<FixtureFileModel>) -> bool {
    forall|i: int| 0 <= i < files.len() ==> is_plain_path(packed_path((#[trigger] files[i]).path))
}

/// Nothing changes after an error.
proof fn lemma_packing_stops(files: Seq<FixtureFileModel>, n: int)
    requires
        0 <= n <= files.len(),
        packed(files.take(n)) is Err,
    ensures
        packed(files) == packed(files.take(n)),
    decreases files.len() - n,
{
    if n == files.len() {
        assert(files.take(n) =~= files);
    } else {
        assert(files.take(n + 1).drop_last() =~= files.take(n));
        lemma_packing_stops(files, n + 1);
    }
}

/// Packs files into an archive.
fn pack(files: &Vec<FixtureFile>) -> (r: Result<Vec<u8>, String>)
    ensures
        all_plain(sorted::list_views(files@)) ==> bytes_result(r) == packed(
            sorted::list_views(files@),
        ),
{
    let ghost all = sorted::list_views(files@);
    let mut out: Vec<u8> = Vec::new();
    let mut i: usize = 0;
    while i < files.len()
        invariant
            i <= files@.len(),
            all == sorted::list_views(files@),
            all_plain(all) ==> packed(all.take(i as int)) == Ok::<Seq<u8>, Seq<char>>(out@),
        decreases files@.len() - i,
    {
        let file = &files[i];
        let ghost before = out@;
        proof {
            assert(all.take(i + 1).drop_last() =~= all.take(i as int));
            assert(all.take(i + 1).last() == file@);
            assert(all[i as int] == file@);
        }
        let mut place = text::chars_of("package/");
        text::append_str(&mut place, file.path.as_str());
        let mode: u32 = if file.executable {
            0o755
        } else {
            0o644
        };
        match pack_entry(text::string_of(&place).as_str(), mode, 0, &file.contents) {
            Ok(blocks) => {
                out.extend_from_slice(&blocks);
                assert(out@ =~= before + blocks@);
            },
            Err(message) => {
                proof {
                    if all_plain(all) {
                        lemma_packing_stops(all, i + 1);
                    }
                }
                return Err(message);
            },
        }
        i += 1;
    }
    assert(all.take(i as int) =~= all);
    Ok(out)
}

/// The tarball of some files, or why there is none.
pub open spec fn tarball_of(files: Seq<FixtureFileModel>) -> Result<Seq<u8>, Seq<char>> {
    match packed(files) {
        Ok(blocks) => Ok(gzipped(blocks + archive_end())),
        Err(message) => Err(message),
    }
}

impl Package {
    /// The tarball as npm would ship it, `package/` prefix and all, given the
    /// package's manifest. Where a path holds a backslash or a colon, what the
    /// archive says of it depends on the platform.
    pub fn tarball(&self, manifest: Vec<u8>) -> (r: Result<Vec<u8>, String>)
        ensures
            all_plain(shipped(self@, manifest@)) ==> {
                &&& bytes_result(r) == tarball_of(shipped(self@, manifest@))
                &&& r matches Ok(tarball) ==> Ok::<Seq<u8>, Seq<char>>(
                    package::gunzipped(tarball@),
                ) == match packed(shipped(self@, manifest@)) {
                    Ok(blocks) => Ok(blocks + archive_end()),
                    Err(message) => Err(message),
                }
            },
    {
        let files = self.contents(manifest);
        match pack(&files) {
            Ok(blocks) => Ok(gzip(&close_archive(blocks))),
            Err(message) => Err(message),
        }
    }
}

// ---------------------------------------------------------------------------
// Documents.

/// The fields of an object.
pub type Fields = Seq<(Seq<char>, JsonModel)>;

/// Texts as fields.
pub open spec fn text_fields(map: Texts) -> Fields {
    map.map_values(|e: (Seq<char>, Seq<char>)| (e.0, JsonModel::Text(e.1)))
}

/// Fields, and one more for texts where there are any.
pub open spec fn with_texts(fields: Fields, name: Seq<char>, map: Texts) -> Fields {
    if map.len() == 0 {
        fields
    } else {
        fields.push((name, JsonModel::Object(text_fields(map))))
    }
}

/// Names in order, each once.
pub open spec fn name_set(names: Seq<Seq<char>>) -> Seq<(Seq<char>, ())>
    decreases names.len(),
{
    if names.len() == 0 {
        Seq::empty()
    } else {
        sorted::put(name_set(names.drop_last()), names.last(), ())
    }
}

/// What is said of optional peers.
pub open spec fn meta_fields(names: Seq<(Seq<char>, ())>) -> Fields {
    names.map_values(
        |e: (Seq<char>, ())|
            (e.0, JsonModel::Object(seq![("optional"@, JsonModel::Bool(true))])),
    )
}

/// The fields of a package's manifest.
pub open spec fn manifest_fields(p: PackageModel) -> Fields {
    let head = seq![
        ("name"@, JsonModel::Text(p.name)),
        ("version"@, JsonModel::Text(p.version)),
        ("main"@, JsonModel::Text("index.js"@)),
    ];
    let runtime = with_texts(head, "dependencies"@, p.dependencies);
    let optional = with_texts(runtime, "optionalDependencies"@, p.optional_dependencies);
    let peers = if p.peer_dependencies.len() == 0 {
        optional
    } else {
        with_texts(optional, "peerDependencies"@, p.peer_dependencies).push(
            (
                "peerDependenciesMeta"@,
                JsonModel::Object(meta_fields(name_set(p.optional_peers))),
            ),
        )
    };
    with_texts(peers, "bin"@, p.bin)
}

fn push_field(fields: &mut Vec<(String, Json)>, name: &str, value: Json)
    ensures
        json::entry_models(final(fields)@) == json::entry_models(old(fields)@).push(
            (name@, value@),
        ),
{
    let ghost before = json::entry_models(fields@);
    fields.push((name.to_string(), value));
    assert(json::entry_models(fields@) =~= before.push((name@, value@)));
}

fn object(fields: Vec<(String, Json)>) -> (r: Json)
    ensures
        r@ == JsonModel::Object(json::entry_models(fields@)),
{
    proof {
        json::lemma_object_model(fields);
    }
    Json::Object(fields)
}

fn push_texts(fields: &mut Vec<(String, Json)>, name: &str, map: &SortedMap<String, String>)
    ensures
        json::entry_models(final(fields)@) == with_texts(
            json::entry_models(old(fields)@),
            name@,
            map@,
        ),
{
    if map.is_empty() {
        return;
    }
    let mut inner: Vec<(String, Json)> = Vec::new();
    let n: usize = map.len();
    let mut i: usize = 0;
    assert(json::entry_models(inner@) =~= text_fields(map@.take(0)));
    while i < n
        invariant
            i <= n,
            n == map@.len(),
            json::entry_models(inner@) == text_fields(map@.take(i as int)),
        decreases n - i,
    {
        let key = map.key_at(i);
        let value = map.value_at(i);
        push_field(&mut inner, key.as_str(), Json::Text(value.clone()));
        assert(text_fields(map@.take(i + 1)) =~= text_fields(map@.take(i as int)).push(
            (key@, JsonModel::Text(value@)),
        ));
        i += 1;
    }
    assert(map@.take(i as int) =~= map@);
    push_field(fields, name, object(inner));
}

fn peers_meta(names: &Vec<String>) -> (r: Json)
    ensures
        r@ == JsonModel::Object(meta_fields(name_set(text::strings(names@)))),
{
    let ghost all = text::strings(names@);
    let mut set: SortedMap<String, ()> = SortedMap::new();
    let mut i: usize = 0;
    assert(all.take(0) =~= Seq::empty());
    while i < names.len()
        invariant
            i <= names@.len(),
            all == text::strings(names@),
            set@ == name_set(all.take(i as int)),
        decreases names@.len() - i,
    {
        proof {
            assert(all.take(i + 1).drop_last() =~= all.take(i as int));
            assert(all.take(i + 1).last() == names@[i as int]@);
        }
        set.insert(names[i].clone(), ());
        i += 1;
    }
    assert(all.take(i as int) =~= all);
    let mut fields: Vec<(String, Json)> = Vec::new();
    let n: usize = set.len();
    let mut k: usize = 0;
    assert(json::entry_models(fields@) =~= meta_fields(set@.take(0)));
    while k < n
        invariant
            k <= n,
            n == set@.len(),
            json::entry_models(fields@) == meta_fields(set@.take(k as int)),
        decreases n - k,
    {
        let mut inner: Vec<(String, Json)> = Vec::new();
        push_field(&mut inner, "optional", Json::Bool(true));
        assert(json::entry_models(inner@) =~= seq![("optional"@, JsonModel::Bool(true))]);
        let key = set.key_at(k);
        push_field(&mut fields, key.as_str(), object(inner));
        assert(meta_fields(set@.take(k + 1)) =~= meta_fields(set@.take(k as int)).push(
            (key@, JsonModel::Object(seq![("optional"@, JsonModel::Bool(true))])),
        ));
        k += 1;
    }
    assert(set@.take(k as int) =~= set@);
    object(fields)
}

impl Package {
    fn manifest_entries(&self) -> (r: Vec<(String, Json)>)
        ensures
            json::entry_models(r@) == manifest_fields(self@),
    {
        let mut fields: Vec<(String, Json)> = Vec::new();
        push_field(&mut fields, "name", Json::Text(self.name.clone()));
        push_field(&mut fields, "version", Json::Text(self.version.clone()));
        push_field(&mut fields, "main", Json::Text("index.js".to_string()));
        assert(json::entry_models(fields@) =~= seq![
            ("name"@, JsonModel::Text(self@.name)),
            ("version"@, JsonModel::Text(self@.version)),
            ("main"@, JsonModel::Text("index.js"@)),
        ]);
        push_texts(&mut fields, "dependencies", &self.dependencies);
        push_texts(&mut fields, "optionalDependencies", &self.optional_dependencies);
        if !self.peer_dependencies.is_empty() {
            push_texts(&mut fields, "peerDependencies", &self.peer_dependencies);
            push_field(&mut fields, "peerDependenciesMeta", peers_meta(&self.optional_peers));
        }
        push_texts(&mut fields, "bin", &self.bin);
        fields
    }

    /// The `package.json` of the package.
    pub fn manifest_json(&self) -> (r: Json)
        ensures
            r@ == JsonModel::Object(manifest_fields(self@)),
    {
        object(self.manifest_entries())
    }
}

/// A package that was published: its tarball, and what that hashes to.
#[derive(Debug)]
pub struct Published {
    pub package: Package,
    pub integrity: Integrity,
    pub tarball: String,
}

/// What a `Published` stands for.
#[verifier::ext_equal]
pub struct PublishedModel {
    pub package: PackageModel,
    pub integrity: IntegrityModel,
    pub tarball: Seq<char>,
}

impl View for Published {
    type V = PublishedModel;

    open spec fn view(&self) -> PublishedModel {
        PublishedModel {
            package: self.package@,
            integrity: self.integrity@,
            tarball: self.tarball@,
        }
    }
}

/// What a packument says of one version: its manifest, and where its tarball is.
pub open spec fn version_json(p: PublishedModel) -> JsonModel {
    JsonModel::Object(
        manifest_fields(p.package).push(
            (
                "dist"@,
                JsonModel::Object(
                    seq![
                        ("tarball"@, JsonModel::Text("file://"@ + p.tarball)),
                        (
                            "integrity"@,
                            JsonModel::Text(integrity::integrity_text(p.integrity)),
                        ),
                    ],
                ),
            ),
        ),
    )
}

/// Fields after one was set: in its place where it is there, and last where it is
/// not.
pub open spec fn with_field(fields: Fields, name: Seq<char>, value: JsonModel) -> Fields
    decreases fields.len(),
{
    if fields.len() == 0 {
        seq![(name, value)]
    } else if fields[0].0 == name {
        seq![(name, value)] + fields.skip(1)
    } else {
        seq![fields[0]] + with_field(fields.skip(1), name, value)
    }
}

/// The versions of a packument.
pub open spec fn version_fields(list: Seq<PublishedModel>) -> Fields
    decreases list.len(),
{
    if list.len() == 0 {
        Seq::empty()
    } else {
        with_field(
            version_fields(list.drop_last()),
            list.last().package.version,
            version_json(list.last()),
        )
    }
}

/// A packument. Fixtures are published in ascending order, so the last one is the
/// latest.
pub open spec fn packument_fields(name: Seq<char>, list: Seq<PublishedModel>) -> Fields {
    let latest = if list.len() == 0 {
        Seq::empty()
    } else {
        list.last().package.version
    };
    seq![
        ("name"@, JsonModel::Text(name)),
        ("dist-tags"@, JsonModel::Object(seq![("latest"@, JsonModel::Text(latest))])),
        ("versions"@, JsonModel::Object(version_fields(list))),
    ]
}

fn version_entry(published: &Published) -> (r: Json)
    ensures
        r@ == version_json(published@),
{
    let mut dist: Vec<(String, Json)> = Vec::new();
    let place = text::concat("file://".to_string(), published.tarball.as_str());
    push_field(&mut dist, "tarball", Json::Text(place));
    push_field(&mut dist, "integrity", Json::Text(published.integrity.to_string()));
    assert(json::entry_models(dist@) =~= seq![
        ("tarball"@, JsonModel::Text("file://"@ + published@.tarball)),
        ("integrity"@, JsonModel::Text(integrity::integrity_text(published@.integrity))),
    ]);
    let mut fields = published.package.manifest_entries();
    push_field(&mut fields, "dist", object(dist));
    object(fields)
}

fn set_field(fields: &mut Vec<(String, Json)>, name: &str, value: Json)
    ensures
        json::entry_models(final(fields)@) == with_field(
            json::entry_models(old(fields)@),
            name@,
            value@,
        ),
{
    let ghost all = json::entry_models(fields@);
    let mut i: usize = 0;
    assert(all.take(0) + with_field(all.skip(0), name@, value@) =~= with_field(
        all,
        name@,
        value@,
    )) by {
        assert(all.skip(0) =~= all);
    }
    while i < fields.len()
        invariant
            i <= fields@.len(),
            fields@.len() == all.len(),
            all == json::entry_models(fields@),
            fields@ == old(fields)@,
            with_field(all, name@, value@) == all.take(i as int) + with_field(
                all.skip(i as int),
                name@,
                value@,
            ),
        decreases fields@.len() - i,
    {
        proof {
            assert(all.skip(i as int)[0] == all[i as int]);
            assert(all.skip(i as int).skip(1) =~= all.skip(i + 1));
        }
        if text::same_text(fields[i].0.as_str(), name) {
            fields.set(i, (name.to_string(), value));
            assert(json::entry_models(fields@) =~= all.take(i as int) + (seq![(name@, value@)]
                + all.skip(i + 1)));
            return;
        }
        assert(all.take(i as int) + (seq![all[i as int]] + with_field(
            all.skip(i + 1),
            name@,
            value@,
        )) =~= all.take(i + 1) + with_field(all.skip(i + 1), name@, value@));
        i += 1;
    }
    push_field(fields, name, value);
    assert(all.take(i as int) + with_field(all.skip(i as int), name@, value@) =~= all.push(
        (name@, value@),
    ));
}

/// The packument of a package, given what was published of it.
pub fn packument_json(name: &str, published: &Vec<Published>) -> (r: Json)
    ensures
        r@ == JsonModel::Object(packument_fields(name@, sorted::list_views(published@))),
{
    let ghost all = sorted::list_views(published@);
    let mut versions: Vec<(String, Json)> = Vec::new();
    let mut i: usize = 0;
    assert(all.len() == published@.len());
    assert(json::entry_models(versions@) =~= version_fields(all.take(0)));
    while i < published.len()
        invariant
            i <= published@.len(),
            all == sorted::list_views(published@),
            json::entry_models(versions@) == version_fields(all.take(i as int)),
        decreases published@.len() - i,
    {
        proof {
            assert(all.take(i + 1).drop_last() =~= all.take(i as int));
            assert(all.take(i + 1).last() == published@[i as int]@);
        }
        let entry = version_entry(&published[i]);
        set_field(&mut versions, published[i].package.version.as_str(), entry);
        i += 1;
    }
    assert(all.take(i as int) =~= all);
    let latest = if published.len() == 0 {
        String::new()
    } else {
        assert(all.last() == published@[published@.len() - 1]@);
        published[published.len() - 1].package.version.clone()
    };
    let mut tags: Vec<(String, Json)> = Vec::new();
    push_field(&mut tags, "latest", Json::Text(latest));
    assert(json::entry_models(tags@) =~= seq![("latest"@, JsonModel::Text(latest@))]);
    let mut fields: Vec<(String, Json)> = Vec::new();
    push_field(&mut fields, "name", Json::Text(name.to_string()));
    push_field(&mut fields, "dist-tags", object(tags));
    push_field(&mut fields, "versions", object(versions));
    assert(json::entry_models(fields@) =~= packument_fields(name@, all));
    object(fields)
}

/// A registry in a directory.
#[derive(Debug)]
pub struct FixtureRegistry {
    directory: String,
}

impl View for FixtureRegistry {
    type V = Seq<char>;

    closed spec fn view(&self) -> Seq<char> {
        self.directory@
    }
}

impl FixtureRegistry {
    /// The registry in a directory.
    pub fn at(directory: &str) -> (r: Self)
        ensures
            r@ == directory@,
    {
        FixtureRegistry { directory: directory.to_string() }
    }

    /// The value to put in `$OPAL_REGISTRY`.
    pub fn url(&self) -> (r: String)
        ensures
            r@ == "file://"@ + self@,
    {
        text::concat("file://".to_string(), self.directory.as_str())
    }

    /// Where the tarball of a package is.
    pub fn tarball_path(&self, name: &str, version: &str) -> (r: String)
        ensures
            r@ == native::joined_native(
                native::joined_native(self@, "tarballs"@),
                text::replaced(name@, '/', seq!['_']) + "-"@ + version@ + ".tgz"@,
            ),
    {
        let given = text::chars_of(name);
        let mut filling: Vec<char> = Vec::new();
        filling.push('_');
        assert(filling@ =~= seq!['_']);
        let mut file = text::replace(&given, '/', &filling);
        text::append_str(&mut file, "-");
        text::append_str(&mut file, version);
        text::append_str(&mut file, ".tgz");
        let tarballs = native::join(self.directory.as_str(), "tarballs");
        native::join(tarballs.as_str(), text::string_of(&file).as_str())
    }

    /// Where the packument of a package is.
    pub fn packument_path(&self, name: &str) -> (r: String)
        ensures
            r@ == native::joined_native(self@, name@ + ".json"@),
    {
        native::join(
            self.directory.as_str(),
            text::concat(name.to_string(), ".json").as_str(),
        )
    }
}

} // verus!
