//! What the npm registry says, and how it is asked.
//!
//! The registry protocol is spoken over `https://` and `file://`. The second
//! scheme is not a convenience: it lets the entire install pipeline run against
//! a fixture registry with no network and no HTTP server, exercising exactly the
//! code path production uses. Fetching itself is the caller's; what to fetch and
//! what an answer means is decided here.

use vstd::prelude::*;
use crate::fault::FaultPoint;
use crate::integrity::{Integrity, IntegrityModel};
use crate::json::{Json, JsonModel};
use crate::manifest::{Manifest, ManifestModel};
use crate::order::Rank;
use crate::semver::{Version, VersionModel};
use crate::sorted::SortedMap;
use crate::{integrity, json, manifest, order, semver, sorted, text};

verus! {

/// Why the registry gave no answer.
#[derive(Debug)]
pub enum RegistryError {
    Transport { url: String, message: String },
    Status { url: String, status: u16 },
    NotFound(String),
    Json { url: String, message: String },
    UnknownTag { name: String, tag: String },
}

/// What a `RegistryError` stands for.
#[verifier::ext_equal]
pub enum RegistryErrorModel {
    Transport { url: Seq<char>, message: Seq<char> },
    Status { url: Seq<char>, status: u16 },
    NotFound(Seq<char>),
    Json { url: Seq<char>, message: Seq<char> },
    UnknownTag { name: Seq<char>, tag: Seq<char> },
}

impl View for RegistryError {
    type V = RegistryErrorModel;

    open spec fn view(&self) -> RegistryErrorModel {
        match self {
            RegistryError::Transport { url, message } => RegistryErrorModel::Transport {
                url: url@,
                message: message@,
            },
            RegistryError::Status { url, status } => RegistryErrorModel::Status {
                url: url@,
                status: *status,
            },
            RegistryError::NotFound(name) => RegistryErrorModel::NotFound(name@),
            RegistryError::Json { url, message } => RegistryErrorModel::Json {
                url: url@,
                message: message@,
            },
            RegistryError::UnknownTag { name, tag } => RegistryErrorModel::UnknownTag {
                name: name@,
                tag: tag@,
            },
        }
    }
}

impl Clone for RegistryError {
    fn clone(&self) -> (r: Self)
        ensures
            r@ == self@,
    {
        match self {
            RegistryError::Transport { url, message } => RegistryError::Transport {
                url: url.clone(),
                message: message.clone(),
            },
            RegistryError::Status { url, status } => RegistryError::Status {
                url: url.clone(),
                status: *status,
            },
            RegistryError::NotFound(name) => RegistryError::NotFound(name.clone()),
            RegistryError::Json { url, message } => RegistryError::Json {
                url: url.clone(),
                message: message.clone(),
            },
            RegistryError::UnknownTag { name, tag } => RegistryError::UnknownTag {
                name: name.clone(),
                tag: tag.clone(),
            },
        }
    }
}

/// The message for a failure.
pub open spec fn registry_error_text(error: RegistryErrorModel) -> Seq<char> {
    match error {
        RegistryErrorModel::Transport { url, message } => url + ": "@ + message,
        RegistryErrorModel::Status { url, status } => url + ": HTTP "@ + text::decimal(
            status as nat,
        ),
        RegistryErrorModel::NotFound(name) => "package "@ + text::quoted(name)
            + " is not in the registry"@,
        RegistryErrorModel::Json { url, message } => url
            + ": registry response is not valid JSON: "@ + message,
        RegistryErrorModel::UnknownTag { name, tag } => "package "@ + text::quoted(name)
            + " has no version matching "@ + text::quoted(tag),
    }
}

impl RegistryError {
    /// The message shown to the user.
    pub fn to_string(&self) -> (r: String)
        ensures
            r@ == registry_error_text(self@),
    {
        let mut out: Vec<char> = Vec::new();
        assert(out@ =~= Seq::empty());
        match self {
            RegistryError::Transport { url, message } => {
                text::append_str(&mut out, url.as_str());
                assert(out@ =~= url@);
                text::append_str(&mut out, ": ");
                text::append_str(&mut out, message.as_str());
            },
            RegistryError::Status { url, status } => {
                text::append_str(&mut out, url.as_str());
                assert(out@ =~= url@);
                text::append_str(&mut out, ": HTTP ");
                text::append(&mut out, &text::render_decimal(*status as u64));
            },
            RegistryError::NotFound(name) => {
                text::append_str(&mut out, "package ");
                assert(out@ =~= "package "@);
                text::append_str(&mut out, text::quote(name.as_str()).as_str());
                text::append_str(&mut out, " is not in the registry");
            },
            RegistryError::Json { url, message } => {
                text::append_str(&mut out, url.as_str());
                assert(out@ =~= url@);
                text::append_str(&mut out, ": registry response is not valid JSON: ");
                text::append_str(&mut out, message.as_str());
            },
            RegistryError::UnknownTag { name, tag } => {
                text::append_str(&mut out, "package ");
                assert(out@ =~= "package "@);
                text::append_str(&mut out, text::quote(name.as_str()).as_str());
                text::append_str(&mut out, " has no version matching ");
                text::append_str(&mut out, text::quote(tag.as_str()).as_str());
            },
        }
        text::string_of(&out)
    }
}

// ---------------------------------------------------------------------------
// Packuments.

/// What the registry says of one published version.
#[derive(PartialEq, Eq, Debug)]
pub struct VersionMetadata {
    pub version: Version,
    pub tarball: String,
    pub integrity: Integrity,
    /// Dependencies as declared by that published version.
    pub manifest: Manifest,
    pub deprecated: Option<String>,
}

/// What a `VersionMetadata` stands for.
#[verifier::ext_equal]
pub struct MetadataModel {
    pub version: VersionModel,
    pub tarball: Seq<char>,
    pub integrity: IntegrityModel,
    pub manifest: ManifestModel,
    pub deprecated: Option<Seq<char>>,
}

impl View for VersionMetadata {
    type V = MetadataModel;

    open spec fn view(&self) -> MetadataModel {
        MetadataModel {
            version: self.version@,
            tarball: self.tarball@,
            integrity: self.integrity@,
            manifest: self.manifest@,
            deprecated: text::view_of(self.deprecated),
        }
    }
}

/// Everything that the registry says of one package.
#[derive(PartialEq, Eq, Debug)]
pub struct Packument {
    pub name: String,
    pub versions: SortedMap<Version, VersionMetadata>,
    pub dist_tags: SortedMap<String, Version>,
}

/// What a `Packument` stands for.
#[verifier::ext_equal]
pub struct PackumentModel {
    pub name: Seq<char>,
    pub versions: Seq<(VersionModel, MetadataModel)>,
    pub dist_tags: Seq<(Seq<char>, VersionModel)>,
}

impl View for Packument {
    type V = PackumentModel;

    open spec fn view(&self) -> PackumentModel {
        PackumentModel {
            name: self.name@,
            versions: self.versions@,
            dist_tags: self.dist_tags@,
        }
    }
}

/// The integrity of a distribution. Packages published before 2017 carry only
/// a shasum.
pub open spec fn distribution_integrity(distribution: JsonModel) -> Option<IntegrityModel> {
    let published = match json::text_field(distribution, "integrity"@) {
        Some(given) => integrity::integrity_of(given),
        None => None,
    };
    if published is Some {
        published
    } else {
        match json::text_field(distribution, "shasum"@) {
            Some(given) => integrity::integrity_of_shasum(given),
            None => None,
        }
    }
}

/// What the registry says of a version. One that cannot be parsed, or has no
/// tarball or no integrity, cannot be installed.
pub open spec fn metadata_of(version: Seq<char>, entry: JsonModel) -> Option<MetadataModel> {
    match (semver::version_of(version), json::field(entry, "dist"@)) {
        (Some(version), Some(distribution)) => match (
            json::text_field(distribution, "tarball"@),
            distribution_integrity(distribution),
        ) {
            (Some(tarball), Some(integrity)) => Some(
                MetadataModel {
                    version,
                    tarball,
                    integrity,
                    manifest: manifest::manifest_of(entry),
                    deprecated: json::text_field(entry, "deprecated"@),
                },
            ),
            _ => None,
        },
        _ => None,
    }
}

/// The versions that can be installed. A malformed entry is skipped rather than
/// fatal: it must not make a package uninstallable.
pub open spec fn versions_in(entries: Seq<(Seq<char>, JsonModel)>) -> Seq<
    (VersionModel, MetadataModel),
>
    decreases entries.len(),
{
    if entries.len() == 0 {
        Seq::empty()
    } else {
        let front = versions_in(entries.drop_last());
        match metadata_of(entries.last().0, entries.last().1) {
            Some(metadata) => sorted::put(front, metadata.version, metadata),
            None => front,
        }
    }
}

/// The tags that name a version.
pub open spec fn tags_in(entries: Seq<(Seq<char>, JsonModel)>) -> Seq<(Seq<char>, VersionModel)>
    decreases entries.len(),
{
    if entries.len() == 0 {
        Seq::empty()
    } else {
        let front = tags_in(entries.drop_last());
        match entries.last().1 {
            JsonModel::Text(given) => match semver::version_of(given) {
                Some(version) => sorted::put(front, entries.last().0, version),
                None => front,
            },
            _ => front,
        }
    }
}

/// The packument that a value holds.
pub open spec fn packument_of(name: Seq<char>, value: JsonModel) -> PackumentModel {
    PackumentModel {
        name,
        versions: versions_in(json::object_field(value, "versions"@)),
        dist_tags: tags_in(json::object_field(value, "dist-tags"@)),
    }
}

fn read_integrity(distribution: &Json) -> (r: Option<Integrity>)
    ensures
        text::view_of(r) == distribution_integrity(distribution@),
{
    if let Some(given) = distribution.get_text("integrity") {
        if let Ok(found) = Integrity::parse(given.as_str()) {
            return Some(found);
        }
    }
    if let Some(given) = distribution.get_text("shasum") {
        if let Ok(found) = Integrity::from_shasum(given.as_str()) {
            return Some(found);
        }
    }
    None
}

fn read_metadata(given: &str, entry: &Json) -> (r: Option<VersionMetadata>)
    ensures
        text::view_of(r) == metadata_of(given@, entry@),
{
    let version = match Version::parse(given) {
        Ok(version) => version,
        Err(_) => {
            return None;
        },
    };
    let distribution = match entry.get("dist") {
        Some(distribution) => distribution,
        None => {
            return None;
        },
    };
    let tarball = match distribution.get_text("tarball") {
        Some(tarball) => tarball.clone(),
        None => {
            return None;
        },
    };
    match read_integrity(distribution) {
        Some(integrity) => {
            let deprecated = match entry.get_text("deprecated") {
                Some(message) => Some(message.clone()),
                None => None,
            };
            Some(
                VersionMetadata {
                    version,
                    tarball,
                    integrity,
                    manifest: Manifest::from_value(entry),
                    deprecated,
                },
            )
        },
        None => None,
    }
}

impl Packument {
    /// Reads what a value holds of a packument.
    pub fn parse(name: &str, value: &Json) -> (r: Self)
        ensures
            r@ == packument_of(name@, value@),
    {
        let mut versions: SortedMap<Version, VersionMetadata> = SortedMap::new();
        if let Some(entries) = value.get_object("versions") {
            let ghost all = json::entry_models(entries@);
            let mut i: usize = 0;
            assert(versions_in(all.take(0)) =~= Seq::empty());
            while i < entries.len()
                invariant
                    i <= entries@.len(),
                    all == json::entry_models(entries@),
                    versions@ == versions_in(all.take(i as int)),
                decreases entries@.len() - i,
            {
                proof {
                    assert(all.take(i + 1).drop_last() =~= all.take(i as int));
                    assert(all.take(i + 1).last() == (
                        entries@[i as int].0@,
                        entries@[i as int].1@,
                    ));
                }
                if let Some(metadata) = read_metadata(entries[i].0.as_str(), &entries[i].1) {
                    versions.insert(metadata.version.clone(), metadata);
                }
                i += 1;
            }
            assert(all.take(i as int) =~= all);
        }
        let mut dist_tags: SortedMap<String, Version> = SortedMap::new();
        if let Some(entries) = value.get_object("dist-tags") {
            let ghost all = json::entry_models(entries@);
            let mut i: usize = 0;
            assert(tags_in(all.take(0)) =~= Seq::empty());
            while i < entries.len()
                invariant
                    i <= entries@.len(),
                    all == json::entry_models(entries@),
                    dist_tags@ == tags_in(all.take(i as int)),
                decreases entries@.len() - i,
            {
                proof {
                    assert(all.take(i + 1).drop_last() =~= all.take(i as int));
                    assert(all.take(i + 1).last() == (
                        entries@[i as int].0@,
                        entries@[i as int].1@,
                    ));
                }
                if let Some(given) = entries[i].1.as_text() {
                    if let Ok(version) = Version::parse(given.as_str()) {
                        dist_tags.insert(entries[i].0.clone(), version);
                    }
                }
                i += 1;
            }
            assert(all.take(i as int) =~= all);
        }
        Packument { name: name.to_string(), versions, dist_tags }
    }

    /// Reads the registry's answer to a question for a package.
    pub fn read(name: &str, url: &str, bytes: &[u8]) -> (r: Result<Self, RegistryError>)
        ensures
            match r {
                Ok(packument) => json::json_in_bytes(bytes@) matches Ok(value) && packument@
                    == packument_of(name@, value),
                Err(error) => json::json_in_bytes(bytes@) matches Err(message) && error@
                    == (RegistryErrorModel::Json { url: url@, message }),
            },
    {
        match json::parse_bytes(bytes) {
            Ok(value) => Ok(Self::parse(name, &value)),
            Err(message) => Err(RegistryError::Json { url: url.to_string(), message }),
        }
    }

    /// What the registry says of a version. Build metadata does not count.
    pub fn version(&self, version: &Version) -> (r: Option<&VersionMetadata>)
        ensures
            match r {
                Some(metadata) => sorted::lookup(self@.versions, version@) == Some(metadata@),
                None => sorted::lookup(self@.versions, version@) is None,
            },
    {
        self.versions.get(version)
    }
}

// ---------------------------------------------------------------------------
// Questions.

/// A registry, by its base URL.
#[derive(Debug)]
pub struct NpmRegistry {
    base: String,
}

/// `s` without the slashes at its end.
pub open spec fn without_slashes(s: Seq<char>) -> Seq<char>
    decreases s.len(),
{
    if s.len() > 0 && s.last() == '/' {
        without_slashes(s.drop_last())
    } else {
        s
    }
}

/// Where a packument is. A fixture has one JSON file per package, with scopes
/// as directories; a real registry wants the scope separator escaped.
pub open spec fn packument_url_of(base: Seq<char>, name: Seq<char>) -> Seq<char> {
    if text::begins(base, "file://"@) {
        base + "/"@ + name + ".json"@
    } else {
        base + "/"@ + text::replaced(name, '/', "%2f"@)
    }
}

impl View for NpmRegistry {
    type V = Seq<char>;

    closed spec fn view(&self) -> Seq<char> {
        self.base@
    }
}

impl NpmRegistry {
    /// A registry at a base URL.
    pub fn new(base: &str) -> (r: Self)
        ensures
            r@ == without_slashes(base@),
    {
        let chars = text::chars_of(base);
        let mut n: usize = chars.len();
        assert(chars@.take(n as int) =~= chars@);
        while n > 0 && chars[n - 1] == '/'
            invariant
                n <= chars@.len(),
                without_slashes(chars@) == without_slashes(chars@.take(n as int)),
            decreases n,
        {
            assert(chars@.take(n as int).drop_last() =~= chars@.take(n - 1));
            n -= 1;
        }
        NpmRegistry { base: text::string_of(text::before(&chars, n)) }
    }

    /// The base URL, without slashes at its end.
    pub fn base(&self) -> (r: &str)
        ensures
            r@ == self@,
    {
        self.base.as_str()
    }

    /// Where the packument of a package is.
    pub fn packument_url(&self, name: &str) -> (r: String)
        ensures
            r@ == packument_url_of(self@, name@),
    {
        let mut out = text::chars_of(self.base.as_str());
        let fixture = text::begins_with(&out, "file://");
        text::append_str(&mut out, "/");
        if fixture {
            text::append_str(&mut out, name);
            text::append_str(&mut out, ".json");
        } else {
            let chars = text::chars_of(name);
            let escaped = text::chars_of("%2f");
            text::append(&mut out, &text::replace(&chars, '/', &escaped));
        }
        text::string_of(&out)
    }
}

/// How a URL is fetched.
#[derive(Debug, PartialEq, Eq)]
pub enum Source {
    /// Read the file at this path.
    File(String),
    /// Ask over HTTP.
    Http,
}

/// How a URL is fetched: `file://` names a file, everything else is HTTP.
pub fn source_of(url: &str) -> (r: Source)
    ensures
        match r {
            Source::File(path) => text::begins(url@, "file://"@) && path@ == url@.skip(
                "file://"@.len() as int,
            ),
            Source::Http => !text::begins(url@, "file://"@),
        },
{
    let chars = text::chars_of(url);
    match text::strip_prefix(&chars, "file://") {
        Some(path) => Source::File(text::string_of(path)),
        None => Source::Http,
    }
}

/// What a file that could not be opened means: one that is not there counts as
/// an HTTP 404.
pub fn file_failure(url: &str, missing: bool, message: &str) -> (r: RegistryError)
    ensures
        r@ == if missing {
            RegistryErrorModel::Status { url: url@, status: 404 }
        } else {
            RegistryErrorModel::Transport { url: url@, message: message@ }
        },
{
    if missing {
        RegistryError::Status { url: url.to_string(), status: 404 }
    } else {
        RegistryError::Transport { url: url.to_string(), message: message.to_string() }
    }
}

/// Checks the status of an HTTP response.
pub fn check_status(url: &str, status: u16) -> (r: Result<(), RegistryError>)
    ensures
        match r {
            Ok(_) => status < 400,
            Err(error) => status >= 400 && error@ == (RegistryErrorModel::Status {
                url: url@,
                status,
            }),
        },
{
    if status >= 400 {
        Err(RegistryError::Status { url: url.to_string(), status })
    } else {
        Ok(())
    }
}

/// What a failure to fetch a packument means: HTTP 404 says that there is no
/// such package.
pub open spec fn packument_failure_of(
    name: Seq<char>,
    error: RegistryErrorModel,
) -> RegistryErrorModel {
    match error {
        RegistryErrorModel::Status { url, status } => if status == 404 {
            RegistryErrorModel::NotFound(name)
        } else {
            error
        },
        _ => error,
    }
}

/// What a failure to fetch a packument means.
pub fn packument_failure(name: &str, error: RegistryError) -> (r: RegistryError)
    ensures
        r@ == packument_failure_of(name@, error@),
{
    match error {
        RegistryError::Status { url, status } => {
            if status == 404 {
                RegistryError::NotFound(name.to_string())
            } else {
                RegistryError::Status { url, status }
            }
        },
        other => other,
    }
}

/// A body that arrives in chunks.
pub struct Download {
    bytes: Vec<u8>,
    started: bool,
}

impl Download {
    /// What arrived so far.
    pub closed spec fn received(&self) -> Seq<u8> {
        self.bytes@
    }

    /// Whether anything arrived yet.
    pub closed spec fn started(&self) -> bool {
        self.started
    }

    /// Nothing arrived yet.
    pub fn new() -> (r: Self)
        ensures
            r.received() == Seq::<u8>::empty(),
            !r.started(),
    {
        Download { bytes: Vec::new(), started: false }
    }

    /// Takes the next chunk. After the first one the download has an
    /// interruptible midpoint.
    pub fn absorb(&mut self, chunk: &[u8]) -> (r: Option<FaultPoint>)
        ensures
            final(self).received() == old(self).received() + chunk@,
            final(self).started(),
            r == if old(self).started() {
                None::<FaultPoint>
            } else {
                Some(FaultPoint::PmMidDownload)
            },
    {
        let first = !self.started;
        self.bytes.extend_from_slice(chunk);
        assert(self.bytes@ =~= old(self).bytes@ + chunk@);
        self.started = true;
        if first {
            Some(FaultPoint::PmMidDownload)
        } else {
            None
        }
    }

    /// The whole body.
    pub fn finish(self) -> (r: Vec<u8>)
        ensures
            r@ == self.received(),
    {
        self.bytes
    }
}

/// Versions and tags are in order, so that what is written out of them is the
/// same on every run.
pub proof fn packuments_are_ordered(name: Seq<char>, value: JsonModel)
    ensures
        sorted::ascending(packument_of(name, value).versions),
        sorted::ascending(packument_of(name, value).dist_tags),
{
    lemma_versions_ascending(json::object_field(value, "versions"@));
    lemma_tags_ascending(json::object_field(value, "dist-tags"@));
}

/// The versions of a packument are in order.
pub proof fn lemma_versions_ascending(entries: Seq<(Seq<char>, JsonModel)>)
    ensures
        sorted::ascending(versions_in(entries)),
    decreases entries.len(),
{
    if entries.len() > 0 {
        lemma_versions_ascending(entries.drop_last());
        if let Some(metadata) = metadata_of(entries.last().0, entries.last().1) {
            sorted::lemma_put_ascending(
                versions_in(entries.drop_last()),
                metadata.version,
                metadata,
            );
        }
    }
}

proof fn lemma_tags_ascending(entries: Seq<(Seq<char>, JsonModel)>)
    ensures
        sorted::ascending(tags_in(entries)),
    decreases entries.len(),
{
    if entries.len() > 0 {
        lemma_tags_ascending(entries.drop_last());
        if let JsonModel::Text(given) = entries.last().1 {
            if let Some(version) = semver::version_of(given) {
                sorted::lemma_put_ascending(
                    tags_in(entries.drop_last()),
                    entries.last().0,
                    version,
                );
            }
        }
    }
}

/// What the registry says of a version can be looked up under it: every entry
/// that can be installed is found, unless a later one names the same version. Build
/// metadata does not count.
pub proof fn usable_versions_are_found(entries: Seq<(Seq<char>, JsonModel)>, i: int)
    requires
        0 <= i < entries.len(),
        metadata_of(entries[i].0, entries[i].1) is Some,
        forall|j: int|
            i < j < entries.len() ==> match metadata_of(
                (#[trigger] entries[j]).0,
                entries[j].1,
            ) {
                Some(other) => other.version.rank() != metadata_of(
                    entries[i].0,
                    entries[i].1,
                )->0.version.rank(),
                None => true,
            },
    ensures
        ({
            let metadata = metadata_of(entries[i].0, entries[i].1)->0;
            sorted::lookup(versions_in(entries), metadata.version) == Some(metadata)
        }),
    decreases entries.len(),
{
    let front = entries.drop_last();
    let metadata = metadata_of(entries[i].0, entries[i].1)->0;
    lemma_versions_ascending(front);
    assert(entries.last() == entries[entries.len() - 1]);
    if i < front.len() {
        assert(front[i] == entries[i]);
        assert forall|j: int| i < j < front.len() implies match metadata_of(
            (#[trigger] front[j]).0,
            front[j].1,
        ) {
            Some(other) => other.version.rank() != metadata_of(
                front[i].0,
                front[i].1,
            )->0.version.rank(),
            None => true,
        } by {
            assert(front[j] == entries[j]);
        }
        usable_versions_are_found(front, i);
    }
    if let Some(last) = metadata_of(entries.last().0, entries.last().1) {
        sorted::lemma_put_lookup(versions_in(front), last.version, last, metadata.version);
    }
}

/// A registry wants the scope of a name escaped; a name without one is taken as it is. A
/// fixture has a file for each name, with scopes as directories.
pub proof fn scopes_are_escaped(base: Seq<char>, scope: Seq<char>, name: Seq<char>)
    requires
        !scope.contains('/'),
        !name.contains('/'),
    ensures
        ({
            let scoped = scope + seq!['/'] + name;
            if text::begins(base, "file://"@) {
                &&& packument_url_of(base, scoped) == base + "/"@ + scope + "/"@ + name + ".json"@
                &&& packument_url_of(base, name) == base + "/"@ + name + ".json"@
            } else {
                &&& packument_url_of(base, scoped) == base + "/"@ + scope + "%2f"@ + name
                &&& packument_url_of(base, name) == base + "/"@ + name
            }
        }),
{
    reveal_strlit("/");
    let scoped = scope + seq!['/'] + name;
    assert("/"@ =~= seq!['/']);
    text::replacing_is_joining_anew(scoped, '/', "%2f"@);
    text::replacing_is_joining_anew(name, '/', "%2f"@);
    text::lemma_pieces_step(scope, name, '/');
    text::lemma_pieces_whole(name, '/');
    let parts = seq![scope, name];
    assert(text::pieces(scoped, '/') =~= parts);
    assert(parts.drop_last() =~= seq![scope]);
    assert(text::joined(parts, "%2f"@) == scope + "%2f"@ + name) by {
        reveal_with_fuel(text::joined, 2);
    }
    assert(base + "/"@ + (scope + "%2f"@ + name) =~= base + "/"@ + scope + "%2f"@ + name);
    assert(base + "/"@ + scoped + ".json"@ =~= base + "/"@ + scope + "/"@ + name + ".json"@);
}

/// A base URL is kept without the slashes at its end, however many there are.
pub proof fn base_urls_end_without_slashes(base: Seq<char>)
    ensures
        without_slashes(base).len() > 0 ==> without_slashes(base).last() != '/',
        without_slashes(base + seq!['/']) == without_slashes(base),
        base.len() > 0 && base.last() != '/' ==> without_slashes(base) == base,
    decreases base.len(),
{
    assert((base + seq!['/']).drop_last() =~= base);
    if base.len() > 0 {
        base_urls_end_without_slashes(base.drop_last());
    }
}

/// A distribution is checked against the integrity that was published with it. Only where
/// none was, or none that is understood, its shasum counts.
pub proof fn published_integrity_comes_first(
    distribution: JsonModel,
    published: Seq<char>,
    shasum: Seq<char>,
)
    ensures
        json::says(distribution, "integrity"@, JsonModel::Text(published))
            && integrity::integrity_of(published) is Some ==> distribution_integrity(distribution)
            == integrity::integrity_of(published),
        json::says(distribution, "shasum"@, JsonModel::Text(shasum)) && (json::is_silent(
            distribution,
            "integrity"@,
        ) || json::says(distribution, "integrity"@, JsonModel::Text(published))
            && integrity::integrity_of(published) is None) ==> distribution_integrity(distribution)
            == integrity::integrity_of_shasum(shasum),
        json::is_silent(distribution, "shasum"@) && json::is_silent(distribution, "integrity"@)
            ==> distribution_integrity(distribution) is None,
{
    json::fields_are_entries(distribution, "integrity"@);
    json::fields_are_entries(distribution, "shasum"@);
}

/// A version can be installed if it can be parsed and its distribution has a tarball and
/// an integrity; it is then taken as it was published, with the manifest that its entry
/// holds.
pub proof fn versions_are_taken_as_published(
    version: Seq<char>,
    entry: JsonModel,
    distribution: JsonModel,
    tarball: Seq<char>,
)
    requires
        json::says(entry, "dist"@, distribution),
        json::says(distribution, "tarball"@, JsonModel::Text(tarball)),
    ensures
        match metadata_of(version, entry) {
            Some(metadata) => {
                &&& semver::version_of(version) == Some(metadata.version)
                &&& distribution_integrity(distribution) == Some(metadata.integrity)
                &&& metadata.tarball == tarball
                &&& metadata.manifest == manifest::manifest_of(entry)
            },
            None => semver::version_of(version) is None || distribution_integrity(
                distribution,
            ) is None,
        },
        json::is_silent(entry, "deprecated"@) ==> (metadata_of(version, entry) matches Some(
            metadata,
        ) ==> metadata.deprecated is None),
        forall|message: Seq<char>|
            #[trigger] json::says(entry, "deprecated"@, JsonModel::Text(message)) ==> (metadata_of(
                version,
                entry,
            ) matches Some(metadata) ==> metadata.deprecated == Some(message)),
{
    json::fields_are_entries(entry, "dist"@);
    json::fields_are_entries(entry, "deprecated"@);
    json::fields_are_entries(distribution, "tarball"@);
}

/// A tag leads to the version it names: every tag with a version is found, unless a later
/// entry has the same tag.
pub proof fn tags_lead_to_their_versions(
    entries: Seq<(Seq<char>, JsonModel)>,
    i: int,
    given: Seq<char>,
    version: VersionModel,
)
    requires
        0 <= i < entries.len(),
        entries[i].1 == JsonModel::Text(given),
        semver::version_of(given) == Some(version),
        forall|j: int| i < j < entries.len() ==> (#[trigger] entries[j]).0 != entries[i].0,
    ensures
        sorted::lookup(tags_in(entries), entries[i].0) == Some(version),
    decreases entries.len(),
{
    let front = entries.drop_last();
    lemma_tags_ascending(front);
    assert(entries.last() == entries[entries.len() - 1]);
    if i < front.len() {
        assert(front[i] == entries[i]);
        assert forall|j: int| i < j < front.len() implies (#[trigger] front[j]).0
            != front[i].0 by {
            assert(front[j] == entries[j]);
        }
        tags_lead_to_their_versions(front, i, given, version);
        assert(entries[entries.len() - 1].0 != entries[i].0);
        order::lemma_text_rank_injective(entries.last().0, entries[i].0);
    }
    if let JsonModel::Text(text) = entries.last().1 {
        if let Some(last) = semver::version_of(text) {
            sorted::lemma_put_lookup(tags_in(front), entries.last().0, last, entries[i].0);
        }
    }
}

/// That a packument is not there says that there is no such package; every other failure
/// stays what it is.
pub proof fn missing_packuments_are_missing_packages(
    name: Seq<char>,
    url: Seq<char>,
    status: u16,
    message: Seq<char>,
)
    ensures
        packument_failure_of(name, RegistryErrorModel::Status { url, status }) == if status == 404 {
            RegistryErrorModel::NotFound(name)
        } else {
            RegistryErrorModel::Status { url, status }
        },
        packument_failure_of(name, RegistryErrorModel::Transport { url, message }) == (
        RegistryErrorModel::Transport { url, message }),
        packument_failure_of(name, RegistryErrorModel::Json { url, message }) == (
        RegistryErrorModel::Json { url, message }),
{
}

} // verus!
