//! Walks imports from an entry file and builds the module graph.
//!
//! Two properties matter more than feature coverage here:
//!
//! 1. **Nothing is fatal.** A specifier that cannot be resolved becomes an
//!    `Unresolved` edge plus a diagnostic. Real projects import optional
//!    dependencies, platform-specific natives, and packages that are not
//!    installed yet; a resolver that stops at the first miss cannot describe a
//!    real project.
//! 2. **Every filesystem question is recorded.** The resolver only ever asks
//!    "what is at this path?", and the answers go into the [`ResolveTrace`]:
//!    hits as content hashes, misses as probed paths. The misses are what make
//!    the memo layer correct: adding `./x.ts` next to an `./x` that resolved to
//!    `./x/index.js` changes the answer without changing any file the previous
//!    run read.
//!
//! The disk is asked by the caller: a step that needs an answer which is not
//! there yet says which, and changes nothing.

use vstd::prelude::*;
use crate::graph::syntax::{Import, ImportModel, SyntaxModel};
use crate::graph::{exports, syntax};
use crate::graph::{
    BuilderModel, Dependency, DependencyKind, DependencyModel, DependencyTarget, ModuleGraph,
    ModuleGraphBuilder, ModuleId, ModuleSystem, SourceKind, TargetModel,
};
use crate::hash::{ContentHash, HashBuilder};
use crate::json::{Json, JsonModel};
use crate::path::NormalizedPath;
use crate::sorted::SortedMap;
use crate::{graph, hash, json, order, path, sorted, text};

verus! {

// ---------------------------------------------------------------------------
// Options.

/// How to resolve.
#[derive(Debug, PartialEq, Eq)]
pub struct ResolverOptions {
    /// Tried in order when a specifier has no extension. Node's own order is
    /// `.js`, `.json`, `.node`; the TypeScript extensions follow so a TS
    /// project resolves without a separate mode.
    pub extensions: Vec<String>,
    /// Export conditions beyond `import`/`require` (chosen per edge) and
    /// `default` (always last).
    pub conditions: Vec<String>,
    /// `import type { T } from './t'` erases at compile time, so by default it
    /// is not an edge. Type-checking tools would want it on.
    pub follow_type_only_imports: bool,
}

/// What `ResolverOptions` stand for.
#[verifier::ext_equal]
pub struct OptionsModel {
    pub extensions: Seq<Seq<char>>,
    pub conditions: Seq<Seq<char>>,
    pub follow_type_only_imports: bool,
}

impl View for ResolverOptions {
    type V = OptionsModel;

    open spec fn view(&self) -> OptionsModel {
        OptionsModel {
            extensions: text::strings(self.extensions@),
            conditions: text::strings(self.conditions@),
            follow_type_only_imports: self.follow_type_only_imports,
        }
    }
}

impl Clone for ResolverOptions {
    fn clone(&self) -> (r: Self)
        ensures
            r@ == self@,
    {
        ResolverOptions {
            extensions: text::copy_strings(&self.extensions),
            conditions: text::copy_strings(&self.conditions),
            follow_type_only_imports: self.follow_type_only_imports,
        }
    }
}

/// The options that apply where none are given.
pub open spec fn default_options() -> OptionsModel {
    OptionsModel {
        extensions: seq![
            ".js"@,
            ".json"@,
            ".node"@,
            ".mjs"@,
            ".cjs"@,
            ".jsx"@,
            ".ts"@,
            ".tsx"@,
            ".mts"@,
            ".cts"@,
        ],
        conditions: seq!["node"@],
        follow_type_only_imports: false,
    }
}

impl Default for ResolverOptions {
    fn default() -> (r: Self)
        ensures
            r@ == default_options(),
    {
        let mut extensions: Vec<String> = Vec::new();
        extensions.push(".js".to_string());
        extensions.push(".json".to_string());
        extensions.push(".node".to_string());
        extensions.push(".mjs".to_string());
        extensions.push(".cjs".to_string());
        extensions.push(".jsx".to_string());
        extensions.push(".ts".to_string());
        extensions.push(".tsx".to_string());
        extensions.push(".mts".to_string());
        extensions.push(".cts".to_string());
        let mut conditions: Vec<String> = Vec::new();
        conditions.push("node".to_string());
        let r = ResolverOptions { extensions, conditions, follow_type_only_imports: false };
        proof {
            assert(r@.extensions =~= default_options().extensions);
            assert(r@.conditions =~= default_options().conditions);
        }
        r
    }
}

/// Texts as parts of a key.
pub open spec fn text_parts(list: Seq<Seq<char>>) -> Seq<Seq<u8>> {
    list.map_values(|s: Seq<char>| hash::text_part(s))
}

/// What the digest of options takes in.
pub open spec fn options_parts(options: OptionsModel) -> Seq<Seq<u8>> {
    seq![
        hash::text_part("opal.resolver.options.v1"@),
        hash::number_part(options.extensions.len() as u64),
    ] + text_parts(options.extensions) + seq![hash::number_part(options.conditions.len() as u64)]
        + text_parts(options.conditions) + seq![
        hash::number_part(
            if options.follow_type_only_imports {
                1
            } else {
                0
            },
        ),
    ]
}

/// Different options have different parts: an option cannot change without
/// changing what is hashed.
pub proof fn options_are_told_apart(a: OptionsModel, b: OptionsModel)
    requires
        a.extensions.len() <= u64::MAX && b.extensions.len() <= u64::MAX,
        a.conditions.len() <= u64::MAX && b.conditions.len() <= u64::MAX,
        options_parts(a) == options_parts(b),
    ensures
        a == b,
{
    let p = options_parts(a);
    let q = options_parts(b);
    let m = a.extensions.len() as int;
    let n = a.conditions.len() as int;
    assert(p[1] == hash::number_part(m as u64) && q[1] == hash::number_part(
        b.extensions.len() as u64,
    ));
    hash::lemma_parts_injective(Seq::empty(), Seq::empty(), m as u64, b.extensions.len() as u64);
    assert(p[m + 2] == hash::number_part(n as u64) && q[m + 2] == hash::number_part(
        b.conditions.len() as u64,
    ));
    hash::lemma_parts_injective(Seq::empty(), Seq::empty(), n as u64, b.conditions.len() as u64);
    assert forall|i: int| 0 <= i < m implies a.extensions[i] == b.extensions[i] by {
        assert(p[i + 2] == hash::text_part(a.extensions[i]));
        assert(q[i + 2] == hash::text_part(b.extensions[i]));
        hash::lemma_parts_injective(a.extensions[i], b.extensions[i], 0, 0);
    }
    assert forall|i: int| 0 <= i < n implies a.conditions[i] == b.conditions[i] by {
        assert(p[i + m + 3] == hash::text_part(a.conditions[i]));
        assert(q[i + m + 3] == hash::text_part(b.conditions[i]));
        hash::lemma_parts_injective(a.conditions[i], b.conditions[i], 0, 0);
    }
    assert(p.last() == q.last());
    hash::lemma_parts_injective(Seq::empty(), Seq::empty(), 0, 1);
    assert(a.extensions =~= b.extensions);
    assert(a.conditions =~= b.conditions);
}

/// Options that are hashed from the same parts are the same options.
pub proof fn digests_tell_options_apart(a: ResolverOptions, b: ResolverOptions)
    requires
        options_parts(a@) == options_parts(b@),
    ensures
        a@ == b@,
{
    assert(a.extensions.len() <= u64::MAX && b.extensions.len() <= u64::MAX);
    assert(a.conditions.len() <= u64::MAX && b.conditions.len() <= u64::MAX);
    options_are_told_apart(a@, b@);
}

fn push_texts(builder: &mut HashBuilder, list: &Vec<String>)
    ensures
        final(builder)@ == old(builder)@ + hash::framed(text_parts(text::strings(list@))),
{
    let ghost all = text_parts(text::strings(list@));
    let ghost start = builder@;
    let mut i: usize = 0;
    proof {
        assert(all.take(0) =~= Seq::empty());
        assert(start + hash::framed(all.take(0)) =~= start);
    }
    while i < list.len()
        invariant
            i <= list@.len(),
            all == text_parts(text::strings(list@)),
            builder@ == start + hash::framed(all.take(i as int)),
        decreases list@.len() - i,
    {
        builder.push_str(list[i].as_str());
        proof {
            let part = hash::text_part(list@[i as int]@);
            assert(text::strings(list@)[i as int] == list@[i as int]@);
            assert(all[i as int] == part);
            assert(all.take(i + 1) =~= all.take(i as int).push(part));
            hash::lemma_framed_push(all.take(i as int), part);
            assert(builder@ =~= start + hash::framed(all.take(i + 1)));
        }
        i += 1;
    }
    assert(text::strings(list@).len() == list@.len());
    assert(all.take(i as int) =~= all);
}

impl ResolverOptions {
    /// Part of the memo key: changing options must not reuse an old graph.
    pub fn digest(&self) -> (r: ContentHash)
        ensures
            r@ == hash::key_of(options_parts(self@)),
    {
        assert(self@.extensions.len() == self.extensions@.len());
        assert(self@.conditions.len() == self.conditions@.len());
        let flag: u64 = if self.follow_type_only_imports {
            1
        } else {
            0
        };
        let mut builder = HashBuilder::new("opal.resolver.options.v1");
        builder.push_u64(self.extensions.len() as u64);
        push_texts(&mut builder, &self.extensions);
        builder.push_u64(self.conditions.len() as u64);
        push_texts(&mut builder, &self.conditions);
        builder.push_u64(flag);
        proof {
            let domain = hash::text_part("opal.resolver.options.v1"@);
            let first = hash::number_part(self@.extensions.len() as u64);
            let second = hash::number_part(self@.conditions.len() as u64);
            let third = hash::number_part(flag);
            let head = seq![domain, first];
            let one = text_parts(self@.extensions);
            let two = text_parts(self@.conditions);
            hash::lemma_framed_push(seq![domain], first);
            assert(seq![domain].push(first) =~= head);
            hash::lemma_framed_append(head, one);
            hash::lemma_framed_push(head + one, second);
            assert((head + one).push(second) =~= head + one + seq![second]);
            hash::lemma_framed_append(head + one + seq![second], two);
            hash::lemma_framed_push(head + one + seq![second] + two, third);
            assert((head + one + seq![second] + two).push(third) =~= options_parts(self@));
        }
        builder.finish()
    }
}

// ---------------------------------------------------------------------------
// What is known of the disk.

/// What a file is written in, by its extension.
pub open spec fn kind_of(p: Seq<char>) -> SourceKind {
    match path::extension_of(p) {
        Some(e) => if e == "js"@ || e == "mjs"@ || e == "cjs"@ {
            SourceKind::JavaScript
        } else if e == "jsx"@ {
            SourceKind::Jsx
        } else if e == "ts"@ || e == "mts"@ || e == "cts"@ {
            SourceKind::TypeScript
        } else if e == "tsx"@ {
            SourceKind::Tsx
        } else if e == "json"@ {
            SourceKind::Json
        } else {
            SourceKind::Opaque
        },
        None => SourceKind::Opaque,
    }
}

/// What a file is written in, by its extension.
pub fn source_kind_of(path: &NormalizedPath) -> (r: SourceKind)
    ensures
        r == kind_of(path@),
{
    match path.extension() {
        Some(e) => if text::same_text(e, "js") || text::same_text(e, "mjs") || text::same_text(
            e,
            "cjs",
        ) {
            SourceKind::JavaScript
        } else if text::same_text(e, "jsx") {
            SourceKind::Jsx
        } else if text::same_text(e, "ts") || text::same_text(e, "mts") || text::same_text(
            e,
            "cts",
        ) {
            SourceKind::TypeScript
        } else if text::same_text(e, "tsx") {
            SourceKind::Tsx
        } else if text::same_text(e, "json") {
            SourceKind::Json
        } else {
            SourceKind::Opaque
        },
        None => SourceKind::Opaque,
    }
}

/// What is kept of a file's content.
#[derive(PartialEq, Eq, Debug)]
pub enum Content {
    /// A `.node` addon or a large asset is hashed and dropped.
    Dropped,
    /// A file that should be text, but is not valid UTF-8.
    Invalid,
    Text(String),
}

/// What a `Content` stands for.
#[verifier::ext_equal]
pub enum ContentModel {
    Dropped,
    Invalid,
    Text(Seq<char>),
}

impl View for Content {
    type V = ContentModel;

    open spec fn view(&self) -> ContentModel {
        match self {
            Content::Dropped => ContentModel::Dropped,
            Content::Invalid => ContentModel::Invalid,
            Content::Text(source) => ContentModel::Text(source@),
        }
    }
}

/// What is at a path.
#[derive(PartialEq, Eq, Debug)]
pub enum Fact {
    /// No file.
    Missing,
    /// A file that cannot be read.
    Unreadable(String),
    File { hash: ContentHash, content: Content },
}

/// What a `Fact` stands for.
#[verifier::ext_equal]
pub enum FactModel {
    Missing,
    Unreadable(Seq<char>),
    File { hash: Seq<u8>, content: ContentModel },
}

impl View for Fact {
    type V = FactModel;

    open spec fn view(&self) -> FactModel {
        match self {
            Fact::Missing => FactModel::Missing,
            Fact::Unreadable(message) => FactModel::Unreadable(message@),
            Fact::File { hash, content } => FactModel::File { hash: hash@, content: content@ },
        }
    }
}

/// What is known of a file from its bytes. Source text is kept only for files
/// that get parsed.
pub open spec fn fact_of(p: Seq<char>, bytes: Seq<u8>) -> FactModel {
    FactModel::File {
        hash: hash::blake3_digest(bytes),
        content: if !graph::is_parsed_kind(kind_of(p)) && !(kind_of(p) is Json) {
            ContentModel::Dropped
        } else if vstd::utf8::valid_utf8(bytes) {
            ContentModel::Text(vstd::utf8::decode_utf8(bytes))
        } else {
            ContentModel::Invalid
        },
    }
}

impl Fact {
    /// What is known of a file from its bytes.
    pub fn of(path: &NormalizedPath, bytes: &[u8]) -> (r: Self)
        ensures
            r@ == fact_of(path@, bytes@),
    {
        let kind = source_kind_of(path);
        let kept = kind.is_parsed() || kind == SourceKind::Json;
        let content = if !kept {
            Content::Dropped
        } else {
            match text::decode(bytes) {
                Some(source) => Content::Text(source),
                None => Content::Invalid,
            }
        };
        Fact::File { hash: ContentHash::of(bytes), content }
    }
}

/// What is known of paths.
pub type Disk = Seq<(Seq<char>, FactModel)>;

/// What is known so far.
pub struct Facts {
    pub files: SortedMap<NormalizedPath, Fact>,
}

impl Facts {
    /// Nothing is known.
    pub fn new() -> (r: Self)
        ensures
            r.files@ == Seq::<(Seq<char>, FactModel)>::empty(),
    {
        Facts { files: SortedMap::new() }
    }
}

// ---------------------------------------------------------------------------
// Asking.

/// Something to report of a file.
#[verifier::ext_equal]
pub struct NoteModel {
    pub path: Seq<char>,
    pub message: Seq<char>,
}

/// What was asked of the disk, and what there is to report.
#[verifier::ext_equal]
pub struct LogModel {
    pub asked: Seq<Seq<char>>,
    pub notes: Seq<NoteModel>,
}

/// What came of asking: nothing where a fact is not known, and then the last
/// question is the one that has no answer.
#[verifier::reject_recursive_types(T)]
#[verifier::ext_equal]
pub struct Inquiry<T> {
    pub log: LogModel,
    pub found: Option<T>,
}

/// Something to report of a file.
#[derive(Debug)]
struct Note {
    path: NormalizedPath,
    message: String,
}

impl View for Note {
    type V = NoteModel;

    closed spec fn view(&self) -> NoteModel {
        NoteModel { path: self.path@, message: self.message@ }
    }
}

/// What was asked of the disk, and what there is to report.
struct Log {
    asked: Vec<NormalizedPath>,
    notes: Vec<Note>,
}

impl View for Log {
    type V = LogModel;

    closed spec fn view(&self) -> LogModel {
        LogModel {
            asked: sorted::list_views(self.asked@),
            notes: sorted::list_views(self.notes@),
        }
    }
}

/// Nothing was asked.
pub open spec fn no_log() -> LogModel {
    LogModel { asked: Seq::empty(), notes: Seq::empty() }
}

/// One question more.
pub open spec fn ask(log: LogModel, p: Seq<char>) -> LogModel {
    LogModel { asked: log.asked.push(p), ..log }
}

/// One thing more to report.
pub open spec fn note(log: LogModel, path: Seq<char>, message: Seq<char>) -> LogModel {
    LogModel { notes: log.notes.push(NoteModel { path, message }), ..log }
}

impl Log {
    fn new() -> (r: Self)
        ensures
            r@ == no_log(),
    {
        let r = Log { asked: Vec::new(), notes: Vec::new() };
        assert(r@.asked =~= Seq::empty());
        assert(r@.notes =~= Seq::empty());
        r
    }

    fn ask(&mut self, path: &NormalizedPath)
        ensures
            final(self)@ == ask(old(self)@, path@),
    {
        let ghost before = self@.asked;
        let copy = path.clone();
        self.asked.push(copy);
        assert(self@.asked =~= before.push(path@));
    }

    fn note(&mut self, path: &NormalizedPath, message: String)
        ensures
            final(self)@ == note(old(self)@, path@, message@),
    {
        let ghost before = self@.notes;
        let one = Note { path: path.clone(), message };
        self.notes.push(one);
        assert(self@.notes =~= before.push(one@));
    }
}

/// Whether there is a file. Whatever the answer, it is recorded, which is what
/// makes checking a memo complete.
pub open spec fn probed(disk: Disk, log: LogModel, p: Seq<char>) -> Inquiry<bool> {
    Inquiry {
        log: ask(log, p),
        found: match sorted::lookup(disk, p) {
            Some(fact) => Some(!(fact is Missing)),
            None => None,
        },
    }
}

fn probe(facts: &Facts, log: &mut Log, path: &NormalizedPath) -> (r: Option<bool>)
    ensures
        ({
            let q = probed(facts.files@, old(log)@, path@);
            final(log)@ == q.log && r == q.found
        }),
{
    log.ask(path);
    match facts.files.get(path) {
        Some(Fact::Missing) => Some(false),
        Some(_) => Some(true),
        None => None,
    }
}

/// The first of some paths at which there is a file.
pub open spec fn first_file(disk: Disk, log: LogModel, candidates: Seq<Seq<char>>) -> Inquiry<
    Option<Seq<char>>,
>
    decreases candidates.len(),
{
    if candidates.len() == 0 {
        Inquiry { log, found: Some(None) }
    } else {
        let q = probed(disk, log, candidates[0]);
        match q.found {
            None => Inquiry { log: q.log, found: None },
            Some(true) => Inquiry { log: q.log, found: Some(Some(candidates[0])) },
            Some(false) => first_file(disk, q.log, candidates.skip(1)),
        }
    }
}

/// What an exec answer about a path stands for.
pub open spec fn found_view(r: Option<Option<NormalizedPath>>) -> Option<Option<Seq<char>>> {
    match r {
        Some(found) => Some(text::view_of(found)),
        None => None,
    }
}

fn find_first(facts: &Facts, log: &mut Log, candidates: &Vec<NormalizedPath>) -> (r: Option<
    Option<NormalizedPath>,
>)
    ensures
        ({
            let q = first_file(facts.files@, old(log)@, sorted::list_views(candidates@));
            final(log)@ == q.log && found_view(r) == q.found
        }),
{
    let ghost all = sorted::list_views(candidates@);
    let ghost start = log@;
    let mut i: usize = 0;
    assert(all.skip(0) =~= all);
    while i < candidates.len()
        invariant
            i <= candidates@.len(),
            all == sorted::list_views(candidates@),
            start == old(log)@,
            first_file(facts.files@, start, all) == first_file(
                facts.files@,
                log@,
                all.skip(i as int),
            ),
        decreases candidates@.len() - i,
    {
        proof {
            assert(all.skip(i as int)[0] == candidates@[i as int]@);
            assert(all.skip(i as int).skip(1) =~= all.skip(i + 1));
        }
        match probe(facts, log, &candidates[i]) {
            None => {
                return None;
            },
            Some(there) => {
                if there {
                    return Some(Some(candidates[i].clone()));
                }
            },
        }
        i += 1;
    }
    assert(all.skip(i as int).len() == 0);
    Some(None)
}

/// Where the manifest of a directory is.
pub open spec fn manifest_path(directory: Seq<char>) -> Seq<char> {
    path::joined_path(directory, "package.json"@)
}

/// The manifest of a directory. One that cannot be read is treated as absent
/// rather than as an error: npm tarballs in the wild contain files that no JSON
/// parser accepts, and one of them must not take down resolution of an unrelated
/// subtree.
pub open spec fn manifest_at(disk: Disk, log: LogModel, directory: Seq<char>) -> Inquiry<
    Option<JsonModel>,
> {
    let p = manifest_path(directory);
    let asked = ask(log, p);
    match sorted::lookup(disk, p) {
        None => Inquiry { log: asked, found: None },
        Some(FactModel::File { hash, content }) => match content {
            ContentModel::Text(source) => match json::json_in_text(source) {
                Ok(value) => Inquiry { log: asked, found: Some(Some(value)) },
                Err(why) => Inquiry {
                    log: note(asked, p, "invalid JSON: "@ + why),
                    found: Some(None),
                },
            },
            ContentModel::Invalid => Inquiry {
                log: note(asked, p, not_text()),
                found: Some(None),
            },
            ContentModel::Dropped => Inquiry { log: asked, found: Some(None) },
        },
        Some(_) => Inquiry { log: asked, found: Some(None) },
    }
}

/// What is said of a file that should be text and is not.
pub open spec fn not_text() -> Seq<char> {
    "not valid UTF-8; treated as an opaque file"@
}

/// What an exec answer about a manifest stands for.
pub open spec fn manifest_view(r: Option<Option<Json>>) -> Option<Option<JsonModel>> {
    match r {
        Some(found) => Some(text::view_of(found)),
        None => None,
    }
}

fn manifest(facts: &Facts, log: &mut Log, directory: &NormalizedPath) -> (r: Option<Option<Json>>)
    ensures
        ({
            let q = manifest_at(facts.files@, old(log)@, directory@);
            final(log)@ == q.log && manifest_view(r) == q.found
        }),
{
    let path = directory.join("package.json");
    log.ask(&path);
    match facts.files.get(&path) {
        None => None,
        Some(Fact::File { hash: _, content }) => match content {
            Content::Text(source) => match json::parse_text(source.as_str()) {
                Ok(value) => Some(Some(value)),
                Err(why) => {
                    log.note(&path, text::concat("invalid JSON: ".to_string(), why.as_str()));
                    Some(None)
                },
            },
            Content::Invalid => {
                log.note(&path, "not valid UTF-8; treated as an opaque file".to_string());
                Some(None)
            },
            Content::Dropped => Some(None),
        },
        Some(_) => Some(None),
    }
}

// ---------------------------------------------------------------------------
// Files and directories.

/// A path with each of some suffixes.
pub open spec fn with_suffixes(p: Seq<char>, suffixes: Seq<Seq<char>>) -> Seq<Seq<char>> {
    suffixes.map_values(|e: Seq<char>| path::normal(p + e))
}

/// A path with one suffix in place of another, where it has that.
pub open spec fn rewritten(p: Seq<char>, from: Seq<char>, to: Seq<char>) -> Seq<Seq<char>> {
    if text::ends(p, from) {
        seq![path::normal(p.take(p.len() - from.len()) + to)]
    } else {
        Seq::empty()
    }
}

/// Where a file that is asked for may be: under its name, with an extension, and,
/// because TypeScript projects import the *emitted* name, under the name of the
/// source that it would be emitted from. tsc and every bundler rewrite this, so
/// a resolver that doesn't cannot walk a real TS codebase.
pub open spec fn file_candidates(p: Seq<char>, extensions: Seq<Seq<char>>) -> Seq<Seq<char>> {
    seq![p] + with_suffixes(p, extensions) + rewritten(p, ".js"@, ".ts"@) + rewritten(
        p,
        ".js"@,
        ".tsx"@,
    ) + rewritten(p, ".mjs"@, ".mts"@) + rewritten(p, ".cjs"@, ".cts"@)
}

fn push_suffixes(out: &mut Vec<NormalizedPath>, path: &NormalizedPath, suffixes: &Vec<String>)
    ensures
        sorted::list_views(final(out)@) == sorted::list_views(old(out)@) + with_suffixes(
            path@,
            text::strings(suffixes@),
        ),
{
    let ghost all = with_suffixes(path@, text::strings(suffixes@));
    let ghost start = sorted::list_views(out@);
    let mut i: usize = 0;
    assert(start + all.take(0) =~= start);
    while i < suffixes.len()
        invariant
            i <= suffixes@.len(),
            all == with_suffixes(path@, text::strings(suffixes@)),
            sorted::list_views(out@) == start + all.take(i as int),
        decreases suffixes@.len() - i,
    {
        let ghost before = sorted::list_views(out@);
        let one = path.with_suffix(suffixes[i].as_str());
        proof {
            assert(text::strings(suffixes@)[i as int] == suffixes@[i as int]@);
            assert(all[i as int] == one@);
            assert(start + all.take(i + 1) =~= (start + all.take(i as int)).push(one@));
        }
        out.push(one);
        assert(sorted::list_views(out@) =~= before.push(one@));
        i += 1;
    }
    assert(text::strings(suffixes@).len() == suffixes@.len());
    assert(all.take(i as int) =~= all);
}

fn push_rewritten(out: &mut Vec<NormalizedPath>, path: &NormalizedPath, from: &str, to: &str)
    ensures
        sorted::list_views(final(out)@) == sorted::list_views(old(out)@) + rewritten(
            path@,
            from@,
            to@,
        ),
{
    let ghost start = sorted::list_views(out@);
    let chars = text::chars_of(path.as_str());
    match text::strip_suffix(&chars, from) {
        Some(stem) => {
            let mut name: Vec<char> = Vec::new();
            text::append(&mut name, stem);
            text::append_str(&mut name, to);
            assert(name@ =~= stem@ + to@);
            let one = NormalizedPath::new(text::string_of(&name).as_str());
            out.push(one);
            assert(sorted::list_views(out@) =~= start + seq![one@]);
        },
        None => {
            assert(start + rewritten(path@, from@, to@) =~= start);
        },
    }
}

fn candidates_for(path: &NormalizedPath, options: &ResolverOptions) -> (out: Vec<NormalizedPath>)
    ensures
        sorted::list_views(out@) == file_candidates(path@, options@.extensions),
{
    let mut out: Vec<NormalizedPath> = Vec::new();
    out.push(path.clone());
    assert(sorted::list_views(out@) =~= seq![path@]);
    push_suffixes(&mut out, path, &options.extensions);
    push_rewritten(&mut out, path, ".js", ".ts");
    push_rewritten(&mut out, path, ".js", ".tsx");
    push_rewritten(&mut out, path, ".mjs", ".mts");
    push_rewritten(&mut out, path, ".cjs", ".cts");
    out
}

/// Where a directory that is asked for may have its file: where its manifest
/// says, or in an index.
pub open spec fn directory_candidates(
    directory: Seq<char>,
    manifest: Option<JsonModel>,
    extensions: Seq<Seq<char>>,
) -> Seq<Seq<char>> {
    let index = with_suffixes(path::joined_path(directory, "index"@), extensions);
    match manifest {
        Some(value) => match json::text_field(value, "main"@) {
            Some(main) => {
                let p = path::joined_path(directory, main);
                seq![p] + with_suffixes(p, extensions) + index
            },
            None => index,
        },
        None => index,
    }
}

/// The file that a directory stands for.
pub open spec fn directory_file(
    disk: Disk,
    log: LogModel,
    options: OptionsModel,
    directory: Seq<char>,
) -> Inquiry<Option<Seq<char>>> {
    let q = manifest_at(disk, log, directory);
    match q.found {
        None => Inquiry { log: q.log, found: None },
        Some(manifest) => first_file(
            disk,
            q.log,
            directory_candidates(directory, manifest, options.extensions),
        ),
    }
}

fn resolve_directory(
    facts: &Facts,
    log: &mut Log,
    options: &ResolverOptions,
    directory: &NormalizedPath,
) -> (r: Option<Option<NormalizedPath>>)
    ensures
        ({
            let q = directory_file(facts.files@, old(log)@, options@, directory@);
            final(log)@ == q.log && found_view(r) == q.found
        }),
{
    let found = match manifest(facts, log, directory) {
        None => {
            return None;
        },
        Some(found) => found,
    };
    let mut candidates: Vec<NormalizedPath> = Vec::new();
    assert(sorted::list_views(candidates@) =~= Seq::empty());
    let main = match &found {
        Some(value) => value.get_text("main"),
        None => None,
    };
    if let Some(main) = main {
        let p = directory.join(main.as_str());
        candidates.push(p.clone());
        assert(sorted::list_views(candidates@) =~= seq![p@]);
        push_suffixes(&mut candidates, &p, &options.extensions);
    }
    let ghost before = sorted::list_views(candidates@);
    push_suffixes(&mut candidates, &directory.join("index"), &options.extensions);
    proof {
        let index = with_suffixes(
            path::joined_path(directory@, "index"@),
            options@.extensions,
        );
        if before.len() == 0 {
            assert(before + index =~= index);
        }
        assert(sorted::list_views(candidates@) =~= directory_candidates(
            directory@,
            text::view_of(found),
            options@.extensions,
        ));
    }
    find_first(facts, log, &candidates)
}

/// The file that a path stands for: a file, then a file with an extension, then
/// a directory.
pub open spec fn path_file(
    disk: Disk,
    log: LogModel,
    options: OptionsModel,
    p: Seq<char>,
) -> Inquiry<Option<Seq<char>>> {
    let q = first_file(disk, log, file_candidates(p, options.extensions));
    match q.found {
        Some(None) => directory_file(disk, q.log, options, p),
        _ => q,
    }
}

fn resolve_path(
    facts: &Facts,
    log: &mut Log,
    options: &ResolverOptions,
    candidate: &NormalizedPath,
) -> (r: Option<Option<NormalizedPath>>)
    ensures
        ({
            let q = path_file(facts.files@, old(log)@, options@, candidate@);
            final(log)@ == q.log && found_view(r) == q.found
        }),
{
    let candidates = candidates_for(candidate, options);
    match find_first(facts, log, &candidates) {
        Some(None) => resolve_directory(facts, log, options, candidate),
        other => other,
    }
}

// ---------------------------------------------------------------------------
// Packages.

/// Where a specifier leads.
#[derive(Debug)]
enum Target {
    Path(NormalizedPath),
    Builtin(String),
    Unresolved(String),
}

/// Where a specifier leads.
#[verifier::ext_equal]
pub enum Destination {
    Path(Seq<char>),
    Builtin(Seq<char>),
    Unresolved(Seq<char>),
}

impl View for Target {
    type V = Destination;

    closed spec fn view(&self) -> Destination {
        match self {
            Target::Path(path) => Destination::Path(path@),
            Target::Builtin(name) => Destination::Builtin(name@),
            Target::Unresolved(reason) => Destination::Unresolved(reason@),
        }
    }
}

/// The conditions under which an edge resolves.
pub open spec fn conditions_of(options: OptionsModel, kind: DependencyKind) -> Seq<Seq<char>> {
    options.conditions.push(
        if graph::requires_like(kind) {
            "require"@
        } else {
            "import"@
        },
    )
}

fn conditions_for(options: &ResolverOptions, kind: DependencyKind) -> (r: Vec<String>)
    ensures
        text::strings(r@) == conditions_of(options@, kind),
{
    let mut conditions = text::copy_strings(&options.conditions);
    let ghost before = text::strings(conditions@);
    let last = if kind.is_require_like() {
        "require".to_string()
    } else {
        "import".to_string()
    };
    conditions.push(last);
    assert(text::strings(conditions@) =~= before.push(last@));
    conditions
}

/// Texts in quotes, separated by commas.
pub open spec fn quoted_list(list: Seq<Seq<char>>) -> Seq<char>
    decreases list.len(),
{
    if list.len() == 0 {
        Seq::empty()
    } else if list.len() == 1 {
        text::quoted(list[0])
    } else {
        quoted_list(list.drop_last()) + ", "@ + text::quoted(list.last())
    }
}

fn quote_list(list: &Vec<String>) -> (out: Vec<char>)
    ensures
        out@ == quoted_list(text::strings(list@)),
{
    let ghost all = text::strings(list@);
    let mut out: Vec<char> = Vec::new();
    let mut i: usize = 0;
    assert(all.take(0) =~= Seq::empty());
    while i < list.len()
        invariant
            i <= list@.len(),
            all == text::strings(list@),
            out@ == quoted_list(all.take(i as int)),
        decreases list@.len() - i,
    {
        let quoted = text::quote(list[i].as_str());
        proof {
            assert(all.take(i + 1).drop_last() =~= all.take(i as int));
            assert(all.take(i + 1).last() == list@[i as int]@);
        }
        if i > 0 {
            text::append_str(&mut out, ", ");
        }
        let ghost before = out@;
        text::append_str(&mut out, quoted.as_str());
        proof {
            if i == 0 {
                assert(out@ =~= quoted@);
            }
        }
        i += 1;
    }
    assert(all.len() == list@.len());
    assert(all.take(i as int) =~= all);
    out
}

/// What an `exports` entry comes to, before it is looked for on disk: a relative
/// path, or why there is none.
pub open spec fn export_target(
    exports: JsonModel,
    subpath: Seq<char>,
    conditions: Seq<Seq<char>>,
) -> Result<Seq<char>, Seq<char>> {
    match exports::subpath_entry(exports, subpath) {
        None => Err("exports map has no entry for "@ + text::quoted(subpath)),
        Some((value, captured)) => match exports::selected(value, conditions) {
            None => Err(
                "exports entry for "@ + text::quoted(subpath)
                    + " is blocked or matches no condition in ["@ + quoted_list(conditions)
                    + "]"@,
            ),
            Some(chosen) => {
                let target = match captured {
                    Some(part) => text::replaced(chosen, '*', part),
                    None => chosen,
                };
                if text::begins(target, "./"@) {
                    Ok(target)
                } else {
                    Err(
                        "exports target "@ + text::quoted(target) + " is not a relative path"@,
                    )
                }
            },
        },
    }
}

/// Where an `exports` map leads. Unlike elsewhere, a target must exist exactly as
/// written: that is Node's rule, and being lenient here would resolve things
/// Node refuses to.
pub open spec fn exports_lead(
    disk: Disk,
    log: LogModel,
    options: OptionsModel,
    directory: Seq<char>,
    exports: JsonModel,
    subpath: Seq<char>,
    kind: DependencyKind,
) -> Inquiry<Destination> {
    match export_target(exports, subpath, conditions_of(options, kind)) {
        Err(why) => Inquiry { log, found: Some(Destination::Unresolved(why)) },
        Ok(target) => {
            let p = path::joined_path(directory, target);
            let q = probed(disk, log, p);
            Inquiry {
                log: q.log,
                found: match q.found {
                    None => None,
                    Some(true) => Some(Destination::Path(p)),
                    Some(false) => Some(
                        Destination::Unresolved(
                            "exports target "@ + text::quoted(target) + " does not exist"@,
                        ),
                    ),
                },
            }
        },
    }
}

/// What an exec answer about a specifier stands for.
spec fn target_view(r: Option<Target>) -> Option<Destination> {
    match r {
        Some(target) => Some(target@),
        None => None,
    }
}

fn choose_export(exports: &Json, subpath: &str, conditions: &Vec<String>) -> (r: Result<
    String,
    String,
>)
    ensures
        match r {
            Ok(target) => export_target(exports@, subpath@, text::strings(conditions@)) == Ok::<
                Seq<char>,
                Seq<char>,
            >(target@),
            Err(why) => export_target(exports@, subpath@, text::strings(conditions@)) == Err::<
                Seq<char>,
                Seq<char>,
            >(why@),
        },
{
    let (value, captured) = match exports::match_subpath(exports, subpath) {
        None => {
            return Err(
                text::concat(
                    "exports map has no entry for ".to_string(),
                    text::quote(subpath).as_str(),
                ),
            );
        },
        Some(found) => found,
    };
    let chosen = match exports::select_condition(value, conditions) {
        None => {
            let mut out = text::chars_of("exports entry for ");
            text::append_str(&mut out, text::quote(subpath).as_str());
            text::append_str(&mut out, " is blocked or matches no condition in [");
            text::append(&mut out, &quote_list(conditions));
            text::append_str(&mut out, "]");
            return Err(text::string_of(&out));
        },
        Some(chosen) => chosen,
    };
    let target = match captured {
        Some(part) => {
            let given = text::chars_of(chosen.as_str());
            let filling = text::chars_of(part.as_str());
            text::string_of(&text::replace(&given, '*', &filling))
        },
        None => chosen,
    };
    let chars = text::chars_of(target.as_str());
    if text::begins_with(&chars, "./") {
        Ok(target)
    } else {
        let mut out = text::chars_of("exports target ");
        text::append_str(&mut out, text::quote(target.as_str()).as_str());
        text::append_str(&mut out, " is not a relative path");
        Err(text::string_of(&out))
    }
}

fn resolve_exports(
    facts: &Facts,
    log: &mut Log,
    options: &ResolverOptions,
    directory: &NormalizedPath,
    exports: &Json,
    subpath: &str,
    kind: DependencyKind,
) -> (r: Option<Target>)
    ensures
        ({
            let q = exports_lead(
                facts.files@,
                old(log)@,
                options@,
                directory@,
                exports@,
                subpath@,
                kind,
            );
            final(log)@ == q.log && target_view(r) == q.found
        }),
{
    let conditions = conditions_for(options, kind);
    match choose_export(exports, subpath, &conditions) {
        Err(why) => Some(Target::Unresolved(why)),
        Ok(target) => {
            let candidate = directory.join(target.as_str());
            match probe(facts, log, &candidate) {
                None => None,
                Some(there) => {
                    if there {
                        Some(Target::Path(candidate))
                    } else {
                        let mut out = text::chars_of("exports target ");
                        text::append_str(&mut out, text::quote(target.as_str()).as_str());
                        text::append_str(&mut out, " does not exist");
                        Some(Target::Unresolved(text::string_of(&out)))
                    }
                },
            }
        },
    }
}

/// A subpath without any `./` in front.
pub open spec fn without_dots(s: Seq<char>) -> Seq<char>
    decreases s.len(),
{
    if text::begins(s, seq!['.', '/']) {
        without_dots(s.skip(2))
    } else {
        s
    }
}

proof fn lemma_without_dots(s: Seq<char>)
    ensures
        without_dots(s) == if s.len() >= 2 && s[0] == '.' && s[1] == '/' {
            without_dots(s.skip(2))
        } else {
            s
        },
{
    let dots = seq!['.', '/'];
    if s.len() >= 2 {
        let head = s.take(2);
        assert(head[0] == s[0] && head[1] == s[1]);
        if s[0] == '.' && s[1] == '/' {
            assert(head =~= dots);
        } else {
            assert(head != dots) by {
                assert(head[0] != dots[0] || head[1] != dots[1]);
            }
        }
    }
}

fn trim_dots(s: &str) -> (r: String)
    ensures
        r@ == without_dots(s@),
{
    let chars = text::chars_of(s);
    let mut rest: &[char] = &chars;
    while rest.len() >= 2 && rest[0] == '.' && rest[1] == '/'
        invariant
            without_dots(s@) == without_dots(rest@),
        decreases rest@.len(),
    {
        proof {
            lemma_without_dots(rest@);
        }
        rest = text::after(rest, 2);
    }
    proof {
        lemma_without_dots(rest@);
    }
    text::string_of(rest)
}

/// Where a package directory leads. Nothing where the directory is no package,
/// so that the search goes on further up: without a manifest, only a directory
/// with an index counts, which keeps a stray empty directory from shadowing a
/// real package.
pub open spec fn package_leads(
    disk: Disk,
    log: LogModel,
    options: OptionsModel,
    directory: Seq<char>,
    subpath: Seq<char>,
    kind: DependencyKind,
) -> Inquiry<Option<Destination>> {
    let m = manifest_at(disk, log, directory);
    match m.found {
        None => Inquiry { log: m.log, found: None },
        Some(None) => {
            let d = directory_file(disk, m.log, options, directory);
            Inquiry {
                log: d.log,
                found: match d.found {
                    None => None,
                    Some(Some(p)) => Some(Some(Destination::Path(p))),
                    Some(None) => Some(None),
                },
            }
        },
        Some(Some(manifest)) => match json::field(manifest, "exports"@) {
            Some(exports) => {
                let e = exports_lead(disk, m.log, options, directory, exports, subpath, kind);
                Inquiry {
                    log: e.log,
                    found: match e.found {
                        None => None,
                        Some(destination) => Some(Some(destination)),
                    },
                }
            },
            None => if subpath == "."@ {
                let q = match json::text_field(manifest, "main"@) {
                    Some(main) => path_file(
                        disk,
                        m.log,
                        options,
                        path::joined_path(directory, main),
                    ),
                    None => Inquiry { log: m.log, found: Some(None) },
                };
                let d = match q.found {
                    Some(None) => directory_file(disk, q.log, options, directory),
                    _ => q,
                };
                Inquiry {
                    log: d.log,
                    found: match d.found {
                        None => None,
                        Some(Some(p)) => Some(Some(Destination::Path(p))),
                        Some(None) => Some(
                            Some(
                                Destination::Unresolved(
                                    "package has no main and no index file"@,
                                ),
                            ),
                        ),
                    },
                }
            } else {
                let q = path_file(
                    disk,
                    m.log,
                    options,
                    path::joined_path(directory, without_dots(subpath)),
                );
                Inquiry {
                    log: q.log,
                    found: match q.found {
                        None => None,
                        Some(Some(p)) => Some(Some(Destination::Path(p))),
                        Some(None) => Some(
                            Some(
                                Destination::Unresolved(
                                    subpath + " is not a file in the package"@,
                                ),
                            ),
                        ),
                    },
                }
            },
        },
    }
}

/// What an exec answer about a package stands for.
spec fn option_target_view(r: Option<Option<Target>>) -> Option<Option<Destination>> {
    match r {
        Some(found) => Some(text::view_of(found)),
        None => None,
    }
}

fn resolve_package(
    facts: &Facts,
    log: &mut Log,
    options: &ResolverOptions,
    directory: &NormalizedPath,
    subpath: &str,
    kind: DependencyKind,
) -> (r: Option<Option<Target>>)
    ensures
        ({
            let q = package_leads(
                facts.files@,
                old(log)@,
                options@,
                directory@,
                subpath@,
                kind,
            );
            final(log)@ == q.log && option_target_view(r) == q.found
        }),
{
    let found = match manifest(facts, log, directory) {
        None => {
            return None;
        },
        Some(found) => found,
    };
    let value = match found {
        None => {
            return match resolve_directory(facts, log, options, directory) {
                None => None,
                Some(Some(p)) => Some(Some(Target::Path(p))),
                Some(None) => Some(None),
            };
        },
        Some(value) => value,
    };
    if let Some(exports) = value.get("exports") {
        return match resolve_exports(facts, log, options, directory, exports, subpath, kind) {
            None => None,
            Some(target) => Some(Some(target)),
        };
    }
    if text::same_text(subpath, ".") {
        let named = match value.get_text("main") {
            Some(main) => {
                let candidate = directory.join(main.as_str());
                resolve_path(facts, log, options, &candidate)
            },
            None => Some(None),
        };
        let resolved = match named {
            Some(None) => resolve_directory(facts, log, options, directory),
            other => other,
        };
        return match resolved {
            None => None,
            Some(Some(p)) => Some(Some(Target::Path(p))),
            Some(None) => Some(
                Some(Target::Unresolved("package has no main and no index file".to_string())),
            ),
        };
    }
    let candidate = directory.join(trim_dots(subpath).as_str());
    match resolve_path(facts, log, options, &candidate) {
        None => None,
        Some(Some(p)) => Some(Some(Target::Path(p))),
        Some(None) => Some(
            Some(
                Target::Unresolved(
                    text::concat(subpath.to_string(), " is not a file in the package"),
                ),
            ),
        ),
    }
}

/// The next directory up, as long as it lies below the root. A parent is shorter
/// than its child, except above a relative path, where climbing has no end.
pub open spec fn next_up(current: Seq<char>, root: Seq<char>) -> Option<Seq<char>> {
    if current == root {
        None
    } else {
        match path::parent_of(current) {
            Some(parent) => if path::within_path(parent, root) && parent.len() < current.len() {
                Some(parent)
            } else {
                None
            },
            None => None,
        }
    }
}

fn climb(current: &NormalizedPath, root: &NormalizedPath) -> (r: Option<NormalizedPath>)
    ensures
        text::view_of(r) == next_up(current@, root@),
{
    if current.same(root) {
        return None;
    }
    match current.parent() {
        Some(parent) => {
            if parent.starts_with(root) && shorter(&parent, current) {
                Some(parent)
            } else {
                None
            }
        },
        None => None,
    }
}

fn shorter(a: &NormalizedPath, b: &NormalizedPath) -> (r: bool)
    ensures
        r == (a@.len() < b@.len()),
{
    text::chars_of(a.as_str()).len() < text::chars_of(b.as_str()).len()
}

/// Where a package is found, walking up `node_modules` directories.
///
/// The walk stops at the root rather than continuing to the filesystem root: a
/// dependency resolved from outside the project would make the graph
/// unshareable, since the cache is keyed on root-relative paths.
pub open spec fn bare_leads(
    disk: Disk,
    log: LogModel,
    options: OptionsModel,
    root: Seq<char>,
    current: Seq<char>,
    package: Seq<char>,
    subpath: Seq<char>,
    kind: DependencyKind,
) -> Inquiry<Destination>
    decreases current.len(),
{
    let q = if path::file_name_of(current) == Some("node_modules"@) {
        Inquiry { log, found: Some(None) }
    } else {
        package_leads(
            disk,
            log,
            options,
            path::joined_path(path::joined_path(current, "node_modules"@), package),
            subpath,
            kind,
        )
    };
    match q.found {
        None => Inquiry { log: q.log, found: None },
        Some(Some(destination)) => Inquiry { log: q.log, found: Some(destination) },
        Some(None) => match next_up(current, root) {
            Some(parent) => bare_leads(
                disk,
                q.log,
                options,
                root,
                parent,
                package,
                subpath,
                kind,
            ),
            None => Inquiry {
                log: q.log,
                found: Some(
                    Destination::Unresolved(
                        "package "@ + text::quoted(package)
                            + " is not installed under the project root"@,
                    ),
                ),
            },
        },
    }
}

fn resolve_bare(
    facts: &Facts,
    log: &mut Log,
    options: &ResolverOptions,
    root: &NormalizedPath,
    from: &NormalizedPath,
    specifier: &str,
    kind: DependencyKind,
) -> (r: Option<Target>)
    ensures
        ({
            let (package, subpath) = exports::bare_parts(specifier@);
            let q = bare_leads(
                facts.files@,
                old(log)@,
                options@,
                root@,
                from@,
                package,
                subpath,
                kind,
            );
            final(log)@ == q.log && target_view(r) == q.found
        }),
{
    let (package, subpath) = exports::split_bare_specifier(specifier);
    let ghost start = log@;
    let mut current = from.clone();
    loop
        invariant
            start == old(log)@,
            (package@, subpath@) == exports::bare_parts(specifier@),
            bare_leads(
                facts.files@,
                start,
                options@,
                root@,
                from@,
                package@,
                subpath@,
                kind,
            ) == bare_leads(
                facts.files@,
                log@,
                options@,
                root@,
                current@,
                package@,
                subpath@,
                kind,
            ),
        decreases current@.len(),
    {
        let skipped = match current.file_name() {
            Some(name) => text::same_text(name, "node_modules"),
            None => false,
        };
        if !skipped {
            let candidate = current.join("node_modules").join(package.as_str());
            match resolve_package(facts, log, options, &candidate, subpath.as_str(), kind) {
                None => {
                    return None;
                },
                Some(Some(target)) => {
                    return Some(target);
                },
                Some(None) => {},
            }
        }
        match climb(&current, root) {
            Some(parent) => {
                current = parent;
            },
            None => {
                let mut out = text::chars_of("package ");
                text::append_str(&mut out, text::quote(package.as_str()).as_str());
                text::append_str(&mut out, " is not installed under the project root");
                return Some(Target::Unresolved(text::string_of(&out)));
            },
        }
    }
}

/// Whether a specifier is a path.
pub open spec fn is_path_like(s: Seq<char>) -> bool {
    text::begins(s, "./"@) || text::begins(s, "../"@) || s == "."@ || s == ".."@ || (s.len() > 0
        && s[0] == '/')
}

/// Where a specifier leads, from the directory of the module that has it.
pub open spec fn specifier_leads(
    disk: Disk,
    log: LogModel,
    options: OptionsModel,
    root: Seq<char>,
    from: Seq<char>,
    specifier: Seq<char>,
    kind: DependencyKind,
) -> Inquiry<Destination> {
    if text::begins(specifier, "node:"@) {
        Inquiry { log, found: Some(Destination::Builtin(specifier.skip("node:"@.len() as int))) }
    } else if exports::is_builtin_name(exports::head_of(specifier)) {
        Inquiry { log, found: Some(Destination::Builtin(specifier)) }
    } else if specifier.len() > 0 && specifier[0] == '#' {
        Inquiry {
            log,
            found: Some(Destination::Unresolved("subpath imports (#) are not supported yet"@)),
        }
    } else if specifier.len() == 0 {
        Inquiry { log, found: Some(Destination::Unresolved("empty specifier"@)) }
    } else if is_path_like(specifier) {
        let q = path_file(disk, log, options, path::joined_path(from, specifier));
        Inquiry {
            log: q.log,
            found: match q.found {
                None => None,
                Some(Some(p)) => Some(Destination::Path(p)),
                Some(None) => Some(
                    Destination::Unresolved("no file, extension, or directory index matched"@),
                ),
            },
        }
    } else {
        let (package, subpath) = exports::bare_parts(specifier);
        bare_leads(disk, log, options, root, from, package, subpath, kind)
    }
}

fn resolve_specifier(
    facts: &Facts,
    log: &mut Log,
    options: &ResolverOptions,
    root: &NormalizedPath,
    from: &NormalizedPath,
    specifier: &str,
    kind: DependencyKind,
) -> (r: Option<Target>)
    ensures
        ({
            let q = specifier_leads(
                facts.files@,
                old(log)@,
                options@,
                root@,
                from@,
                specifier@,
                kind,
            );
            final(log)@ == q.log && target_view(r) == q.found
        }),
{
    let chars = text::chars_of(specifier);
    if let Some(name) = text::strip_prefix(&chars, "node:") {
        return Some(Target::Builtin(text::string_of(name)));
    }
    if exports::is_builtin(specifier) {
        return Some(Target::Builtin(specifier.to_string()));
    }
    if chars.len() > 0 && chars[0] == '#' {
        return Some(
            Target::Unresolved("subpath imports (#) are not supported yet".to_string()),
        );
    }
    if chars.len() == 0 {
        return Some(Target::Unresolved("empty specifier".to_string()));
    }
    if text::begins_with(&chars, "./") || text::begins_with(&chars, "../") || text::spells(
        &chars,
        ".",
    ) || text::spells(&chars, "..") || chars[0] == '/' {
        let base = from.join(specifier);
        return match resolve_path(facts, log, options, &base) {
            None => None,
            Some(Some(p)) => Some(Target::Path(p)),
            Some(None) => Some(
                Target::Unresolved("no file, extension, or directory index matched".to_string()),
            ),
        };
    }
    resolve_bare(facts, log, options, root, from, specifier, kind)
}

// ---------------------------------------------------------------------------
// Module systems.

/// ESM or CJS, by the nearest manifest's `type`.
pub open spec fn system_from(
    disk: Disk,
    log: LogModel,
    root: Seq<char>,
    current: Seq<char>,
) -> Inquiry<ModuleSystem>
    decreases current.len(),
{
    let m = manifest_at(disk, log, current);
    match m.found {
        None => Inquiry { log: m.log, found: None },
        Some(Some(manifest)) => Inquiry {
            log: m.log,
            found: Some(
                if json::text_field(manifest, "type"@) == Some("module"@) {
                    ModuleSystem::Esm
                } else {
                    ModuleSystem::Cjs
                },
            ),
        },
        Some(None) => match next_up(current, root) {
            Some(parent) => system_from(disk, m.log, root, parent),
            None => Inquiry { log: m.log, found: Some(ModuleSystem::Cjs) },
        },
    }
}

/// ESM or CJS, by extension and then by the nearest manifest's `type`.
pub open spec fn system_of(disk: Disk, log: LogModel, root: Seq<char>, p: Seq<char>) -> Inquiry<
    ModuleSystem,
> {
    let extension = path::extension_of(p);
    if kind_of(p) is Json || kind_of(p) is Opaque {
        Inquiry { log, found: Some(ModuleSystem::NotApplicable) }
    } else if extension == Some("mjs"@) || extension == Some("mts"@) {
        Inquiry { log, found: Some(ModuleSystem::Esm) }
    } else if extension == Some("cjs"@) || extension == Some("cts"@) {
        Inquiry { log, found: Some(ModuleSystem::Cjs) }
    } else {
        match path::parent_of(p) {
            Some(parent) => system_from(disk, log, root, parent),
            None => Inquiry { log, found: Some(ModuleSystem::Cjs) },
        }
    }
}

fn module_system(
    facts: &Facts,
    log: &mut Log,
    root: &NormalizedPath,
    path: &NormalizedPath,
) -> (r: Option<ModuleSystem>)
    ensures
        ({
            let q = system_of(facts.files@, old(log)@, root@, path@);
            final(log)@ == q.log && r == q.found
        }),
{
    let kind = source_kind_of(path);
    if kind == SourceKind::Json || kind == SourceKind::Opaque {
        return Some(ModuleSystem::NotApplicable);
    }
    if let Some(extension) = path.extension() {
        if text::same_text(extension, "mjs") || text::same_text(extension, "mts") {
            return Some(ModuleSystem::Esm);
        }
        if text::same_text(extension, "cjs") || text::same_text(extension, "cts") {
            return Some(ModuleSystem::Cjs);
        }
    }
    let mut current = match path.parent() {
        Some(parent) => parent,
        None => {
            return Some(ModuleSystem::Cjs);
        },
    };
    let ghost start = log@;
    let ghost first = current@;
    loop
        invariant
            start == old(log)@,
            system_of(facts.files@, start, root@, path@) == system_from(
                facts.files@,
                start,
                root@,
                first,
            ),
            system_from(facts.files@, start, root@, first) == system_from(
                facts.files@,
                log@,
                root@,
                current@,
            ),
        decreases current@.len(),
    {
        match manifest(facts, log, &current) {
            None => {
                return None;
            },
            Some(Some(value)) => {
                let is_module = match value.get_text("type") {
                    Some(given) => text::same_text(given.as_str(), "module"),
                    None => false,
                };
                return if is_module {
                    Some(ModuleSystem::Esm)
                } else {
                    Some(ModuleSystem::Cjs)
                };
            },
            Some(None) => {},
        }
        match climb(&current, root) {
            Some(parent) => {
                current = parent;
            },
            None => {
                return Some(ModuleSystem::Cjs);
            },
        }
    }
}

// ---------------------------------------------------------------------------
// Imports.

/// An edge that a module wants: what it names, and how.
pub type Wanted = (Seq<char>, DependencyKind);

/// The edges that imports come to: without those that erase, unless they are to
/// be followed, and each once, in source order.
pub open spec fn wanted_edges(imports: Seq<ImportModel>, follow: bool) -> Seq<Wanted>
    decreases imports.len(),
{
    if imports.len() == 0 {
        Seq::empty()
    } else {
        let front = wanted_edges(imports.drop_last(), follow);
        let last = imports.last();
        if (follow || !last.type_only) && !front.contains((last.specifier, last.kind)) {
            front.push((last.specifier, last.kind))
        } else {
            front
        }
    }
}

/// An edge that a module wants.
#[derive(Debug)]
struct Edge {
    specifier: String,
    kind: DependencyKind,
}

impl View for Edge {
    type V = Wanted;

    closed spec fn view(&self) -> Wanted {
        (self.specifier@, self.kind)
    }
}

fn holds_edge(list: &Vec<Edge>, specifier: &str, kind: DependencyKind) -> (r: bool)
    ensures
        r == sorted::list_views(list@).contains((specifier@, kind)),
{
    let ghost all = sorted::list_views(list@);
    let mut i: usize = 0;
    while i < list.len()
        invariant
            i <= list@.len(),
            all == sorted::list_views(list@),
            forall|j: int| 0 <= j < i ==> #[trigger] all[j] != (specifier@, kind),
        decreases list@.len() - i,
    {
        assert(all[i as int] == list@[i as int]@);
        if list[i].kind == kind && text::same_text(list[i].specifier.as_str(), specifier) {
            return true;
        }
        i += 1;
    }
    assert(all.len() == list@.len());
    false
}

fn keep_edges(imports: &Vec<Import>, follow: bool) -> (out: Vec<Edge>)
    ensures
        sorted::list_views(out@) == wanted_edges(sorted::list_views(imports@), follow),
{
    let ghost all = sorted::list_views(imports@);
    let mut out: Vec<Edge> = Vec::new();
    let mut i: usize = 0;
    assert(sorted::list_views(out@) =~= Seq::empty());
    while i < imports.len()
        invariant
            i <= imports@.len(),
            all == sorted::list_views(imports@),
            sorted::list_views(out@) == wanted_edges(all.take(i as int), follow),
        decreases imports@.len() - i,
    {
        let ghost before = sorted::list_views(out@);
        let one = &imports[i];
        proof {
            assert(all.take(i + 1).drop_last() =~= all.take(i as int));
            assert(all.take(i + 1).last() == one@);
        }
        if (follow || !one.type_only) && !holds_edge(&out, one.specifier.as_str(), one.kind) {
            let edge = Edge { specifier: one.specifier.clone(), kind: one.kind };
            out.push(edge);
            assert(sorted::list_views(out@) =~= before.push(edge@));
        }
        i += 1;
    }
    assert(all.take(i as int) =~= all);
    out
}

/// What is said of a source that the parser had trouble with.
pub open spec fn parse_notes(p: Seq<char>, syntax: SyntaxModel) -> Seq<NoteModel> {
    match syntax::trouble_of(syntax) {
        Some(message) => seq![NoteModel { path: p, message }],
        None => Seq::empty(),
    }
}

/// What a module imports, and what there is to report of it.
#[verifier::ext_equal]
pub struct Reading {
    pub edges: Seq<Wanted>,
    pub notes: Seq<NoteModel>,
}

/// What a module imports. Only text of a language that is parsed imports
/// anything.
pub open spec fn reading_of(disk: Disk, options: OptionsModel, p: Seq<char>) -> Reading {
    if !graph::is_parsed_kind(kind_of(p)) {
        Reading { edges: Seq::empty(), notes: Seq::empty() }
    } else {
        match sorted::lookup(disk, p) {
            Some(FactModel::File { hash, content: ContentModel::Text(source) }) => {
                let syntax = syntax::syntax_in(p, source);
                Reading {
                    edges: wanted_edges(
                        syntax::imports_in(syntax.nodes),
                        options.follow_type_only_imports,
                    ),
                    notes: parse_notes(p, syntax),
                }
            },
            _ => Reading { edges: Seq::empty(), notes: Seq::empty() },
        }
    }
}

fn dependencies_of(facts: &Facts, options: &ResolverOptions, path: &NormalizedPath) -> (r: (
    Vec<Edge>,
    Vec<Note>,
))
    ensures
        sorted::list_views(r.0@) == reading_of(facts.files@, options@, path@).edges,
        sorted::list_views(r.1@) == reading_of(facts.files@, options@, path@).notes,
{
    let mut notes: Vec<Note> = Vec::new();
    let none: Vec<Edge> = Vec::new();
    assert(sorted::list_views(notes@) =~= Seq::empty());
    assert(sorted::list_views(none@) =~= Seq::empty());
    if !source_kind_of(path).is_parsed() {
        return (none, notes);
    }
    match facts.files.get(path) {
        Some(Fact::File { hash: _, content: Content::Text(source) }) => {
            let syntax = syntax::read_syntax(path.as_str(), source.as_str());
            if let Some(message) = syntax.trouble() {
                let one = Note { path: path.clone(), message };
                notes.push(one);
            }
            assert(sorted::list_views(notes@) =~= parse_notes(path@, syntax@));
            let imports = syntax::imports_of(&syntax.nodes);
            (keep_edges(&imports, options.follow_type_only_imports), notes)
        },
        _ => (none, notes),
    }
}

// ---------------------------------------------------------------------------
// Modules.

/// Why a project could not be resolved.
#[derive(Debug)]
pub enum ResolveError {
    EntryNotFound(NormalizedPath),
    Io { path: NormalizedPath, message: String },
}

/// What a `ResolveError` stands for.
#[verifier::ext_equal]
pub enum ResolveErrorModel {
    EntryNotFound(Seq<char>),
    Io { path: Seq<char>, message: Seq<char> },
}

impl View for ResolveError {
    type V = ResolveErrorModel;

    open spec fn view(&self) -> ResolveErrorModel {
        match self {
            ResolveError::EntryNotFound(entry) => ResolveErrorModel::EntryNotFound(entry@),
            ResolveError::Io { path, message } => ResolveErrorModel::Io {
                path: path@,
                message: message@,
            },
        }
    }
}

/// The message for a failure.
pub open spec fn resolve_error_text(e: ResolveErrorModel) -> Seq<char> {
    match e {
        ResolveErrorModel::EntryNotFound(entry) => "entry "@ + entry + " is not a file"@,
        ResolveErrorModel::Io { path, message } => path + ": "@ + message,
    }
}

impl ResolveError {
    /// The message shown to the user.
    pub fn to_string(&self) -> (r: String)
        ensures
            r@ == resolve_error_text(self@),
    {
        match self {
            ResolveError::EntryNotFound(entry) => {
                let mut out = text::chars_of("entry ");
                text::append_str(&mut out, entry.as_str());
                text::append_str(&mut out, " is not a file");
                text::string_of(&out)
            },
            ResolveError::Io { path, message } => {
                let mut out = text::chars_of(path.as_str());
                text::append_str(&mut out, ": ");
                text::append_str(&mut out, message.as_str());
                text::string_of(&out)
            },
        }
    }
}

/// What loading a module comes to.
#[verifier::ext_equal]
pub enum Loading {
    /// Something is not known yet.
    Unknown(Seq<char>),
    Failed(ResolveErrorModel),
    Loaded { log: LogModel, hash: Seq<u8>, system: ModuleSystem },
}

/// Loads the module at a path.
pub open spec fn loading(disk: Disk, log: LogModel, root: Seq<char>, p: Seq<char>) -> Loading {
    let asked = ask(log, p);
    match sorted::lookup(disk, p) {
        None => Loading::Unknown(p),
        Some(FactModel::Missing) => Loading::Failed(
            ResolveErrorModel::Io { path: p, message: "entity not found"@ },
        ),
        Some(FactModel::Unreadable(message)) => Loading::Failed(
            ResolveErrorModel::Io { path: p, message },
        ),
        Some(FactModel::File { hash, content }) => {
            let noted = if content is Invalid {
                note(asked, p, not_text())
            } else {
                asked
            };
            let s = system_of(disk, noted, root, p);
            match s.found {
                None => Loading::Unknown(s.log.asked.last()),
                Some(system) => Loading::Loaded { log: s.log, hash, system },
            }
        },
    }
}

/// What loading a module comes to.
enum Load {
    Unknown(NormalizedPath),
    Failed(ResolveError),
    Loaded { hash: ContentHash, system: ModuleSystem },
}

/// Whether an exec answer about loading a module is the one that is due.
spec fn is_loading(r: Load, log: LogModel, due: Loading) -> bool {
    match (r, due) {
        (Load::Unknown(p), Loading::Unknown(q)) => p@ == q,
        (Load::Failed(e), Loading::Failed(f)) => e@ == f,
        (
            Load::Loaded { hash, system },
            Loading::Loaded { log: after, hash: due_hash, system: due_system },
        ) => log == after && hash@ == due_hash && system == due_system,
        _ => false,
    }
}

impl Log {
    /// The last question.
    fn last_asked(&self) -> (r: NormalizedPath)
        requires
            self@.asked.len() > 0,
        ensures
            r@ == self@.asked.last(),
    {
        assert(self@.asked.len() == self.asked@.len());
        self.asked[self.asked.len() - 1].clone()
    }
}

fn load(facts: &Facts, log: &mut Log, root: &NormalizedPath, path: &NormalizedPath) -> (r: Load)
    ensures
        is_loading(r, final(log)@, loading(facts.files@, old(log)@, root@, path@)),
{
    log.ask(path);
    match facts.files.get(path) {
        None => Load::Unknown(path.clone()),
        Some(Fact::Missing) => Load::Failed(
            ResolveError::Io { path: path.clone(), message: "entity not found".to_string() },
        ),
        Some(Fact::Unreadable(message)) => Load::Failed(
            ResolveError::Io { path: path.clone(), message: message.clone() },
        ),
        Some(Fact::File { hash, content }) => {
            if let Content::Invalid = content {
                log.note(path, "not valid UTF-8; treated as an opaque file".to_string());
            }
            let ghost noted = log@;
            match module_system(facts, log, root, path) {
                None => {
                    proof {
                        lemma_system_of(facts.files@, facts.files@, noted, root@, path@);
                    }
                    Load::Unknown(log.last_asked())
                },
                Some(system) => Load::Loaded { hash: *hash, system },
            }
        },
    }
}

// ---------------------------------------------------------------------------
// Answers rest on what was asked.

/// Whether a log carries on where another stopped.
pub open spec fn grows(a: LogModel, b: LogModel) -> bool {
    &&& a.asked.len() <= b.asked.len()
    &&& forall|i: int| 0 <= i < a.asked.len() ==> #[trigger] b.asked[i] == a.asked[i]
}

/// Whether two disks give the same answers to some questions.
pub open spec fn agree(a: Disk, b: Disk, asked: Seq<Seq<char>>) -> bool {
    forall|i: int|
        0 <= i < asked.len() ==> sorted::lookup(a, #[trigger] asked[i]) == sorted::lookup(
            b,
            asked[i],
        )
}

/// Whether some questions all have an answer.
pub open spec fn answered(disk: Disk, asked: Seq<Seq<char>>) -> bool {
    forall|i: int| 0 <= i < asked.len() ==> sorted::lookup(disk, #[trigger] asked[i]) is Some
}

/// Whether an inquiry is sound: its log carries on; where it found something,
/// all its questions have answers; and where it found nothing, its last question
/// is one that has none.
pub open spec fn is_sound_inquiry<T>(disk: Disk, log: LogModel, q: Inquiry<T>) -> bool {
    &&& grows(log, q.log)
    &&& q.found is Some && answered(disk, log.asked) ==> answered(disk, q.log.asked)
    &&& q.found is None ==> q.log.asked.len() > log.asked.len() && sorted::lookup(
        disk,
        q.log.asked.last(),
    ) is None
}

proof fn lemma_agree_before(a: Disk, b: Disk, early: LogModel, late: LogModel)
    requires
        grows(early, late),
        agree(a, b, late.asked),
    ensures
        agree(a, b, early.asked),
{
    assert forall|i: int| 0 <= i < early.asked.len() implies sorted::lookup(
        a,
        #[trigger] early.asked[i],
    ) == sorted::lookup(b, early.asked[i]) by {
        assert(late.asked[i] == early.asked[i]);
    }
}

proof fn lemma_grows_on(a: LogModel, b: LogModel, c: LogModel)
    requires
        grows(a, b),
        grows(b, c),
    ensures
        grows(a, c),
{
    assert forall|i: int| 0 <= i < a.asked.len() implies #[trigger] c.asked[i] == a.asked[i] by {
        assert(b.asked[i] == a.asked[i]);
    }
}

proof fn lemma_probed(a: Disk, b: Disk, log: LogModel, p: Seq<char>)
    ensures
        is_sound_inquiry(a, log, probed(a, log, p)),
        agree(a, b, probed(a, log, p).log.asked) ==> probed(b, log, p) == probed(a, log, p),
{
    let asked = ask(log, p).asked;
    assert(asked[asked.len() - 1] == p);
}

proof fn lemma_first_file(a: Disk, b: Disk, log: LogModel, candidates: Seq<Seq<char>>)
    ensures
        is_sound_inquiry(a, log, first_file(a, log, candidates)),
        agree(a, b, first_file(a, log, candidates).log.asked) ==> first_file(b, log, candidates)
            == first_file(a, log, candidates),
    decreases candidates.len(),
{
    if candidates.len() > 0 {
        let q = probed(a, log, candidates[0]);
        lemma_probed(a, b, log, candidates[0]);
        if q.found == Some(false) {
            let rest = candidates.skip(1);
            let next = first_file(a, q.log, rest);
            lemma_first_file(a, b, q.log, rest);
            lemma_grows_on(log, q.log, next.log);
            if agree(a, b, next.log.asked) {
                lemma_agree_before(a, b, q.log, next.log);
            }
        }
    }
}

proof fn lemma_manifest_at(a: Disk, b: Disk, log: LogModel, directory: Seq<char>)
    ensures
        is_sound_inquiry(a, log, manifest_at(a, log, directory)),
        manifest_at(a, log, directory).log.asked.len() > log.asked.len(),
        agree(a, b, manifest_at(a, log, directory).log.asked) ==> manifest_at(b, log, directory)
            == manifest_at(a, log, directory),
{
    let p = manifest_path(directory);
    let asked = ask(log, p).asked;
    assert(asked[asked.len() - 1] == p);
    let q = manifest_at(a, log, directory);
    assert(q.log.asked == asked);
}

proof fn lemma_directory_file(
    a: Disk,
    b: Disk,
    log: LogModel,
    options: OptionsModel,
    directory: Seq<char>,
)
    ensures
        is_sound_inquiry(a, log, directory_file(a, log, options, directory)),
        agree(a, b, directory_file(a, log, options, directory).log.asked) ==> directory_file(
            b,
            log,
            options,
            directory,
        ) == directory_file(a, log, options, directory),
{
    let q = manifest_at(a, log, directory);
    lemma_manifest_at(a, b, log, directory);
    if let Some(manifest) = q.found {
        let candidates = directory_candidates(directory, manifest, options.extensions);
        let next = first_file(a, q.log, candidates);
        lemma_first_file(a, b, q.log, candidates);
        lemma_grows_on(log, q.log, next.log);
        if agree(a, b, next.log.asked) {
            lemma_agree_before(a, b, q.log, next.log);
        }
    }
}

proof fn lemma_path_file(a: Disk, b: Disk, log: LogModel, options: OptionsModel, p: Seq<char>)
    ensures
        is_sound_inquiry(a, log, path_file(a, log, options, p)),
        agree(a, b, path_file(a, log, options, p).log.asked) ==> path_file(b, log, options, p)
            == path_file(a, log, options, p),
{
    let candidates = file_candidates(p, options.extensions);
    let q = first_file(a, log, candidates);
    lemma_first_file(a, b, log, candidates);
    if q.found == Some(None::<Seq<char>>) {
        let next = directory_file(a, q.log, options, p);
        lemma_directory_file(a, b, q.log, options, p);
        lemma_grows_on(log, q.log, next.log);
        if agree(a, b, next.log.asked) {
            lemma_agree_before(a, b, q.log, next.log);
        }
    }
}

proof fn lemma_exports_lead(
    a: Disk,
    b: Disk,
    log: LogModel,
    options: OptionsModel,
    directory: Seq<char>,
    exports: JsonModel,
    subpath: Seq<char>,
    kind: DependencyKind,
)
    ensures
        ({
            let q = exports_lead(a, log, options, directory, exports, subpath, kind);
            &&& is_sound_inquiry(a, log, q)
            &&& agree(a, b, q.log.asked) ==> exports_lead(
                b,
                log,
                options,
                directory,
                exports,
                subpath,
                kind,
            ) == q
        }),
{
    if let Ok(target) = export_target(exports, subpath, conditions_of(options, kind)) {
        lemma_probed(a, b, log, path::joined_path(directory, target));
    }
}

proof fn lemma_package_leads(
    a: Disk,
    b: Disk,
    log: LogModel,
    options: OptionsModel,
    directory: Seq<char>,
    subpath: Seq<char>,
    kind: DependencyKind,
)
    ensures
        ({
            let q = package_leads(a, log, options, directory, subpath, kind);
            &&& is_sound_inquiry(a, log, q)
            &&& agree(a, b, q.log.asked) ==> package_leads(
                b,
                log,
                options,
                directory,
                subpath,
                kind,
            ) == q
        }),
{
    let all = package_leads(a, log, options, directory, subpath, kind);
    let m = manifest_at(a, log, directory);
    lemma_manifest_at(a, b, log, directory);
    match m.found {
        None => {},
        Some(None) => {
            let d = directory_file(a, m.log, options, directory);
            lemma_directory_file(a, b, m.log, options, directory);
            lemma_grows_on(log, m.log, d.log);
            if agree(a, b, d.log.asked) {
                lemma_agree_before(a, b, m.log, d.log);
            }
        },
        Some(Some(manifest)) => {
            if let Some(exports) = json::field(manifest, "exports"@) {
                let e = exports_lead(a, m.log, options, directory, exports, subpath, kind);
                lemma_exports_lead(a, b, m.log, options, directory, exports, subpath, kind);
                lemma_grows_on(log, m.log, e.log);
                if agree(a, b, e.log.asked) {
                    lemma_agree_before(a, b, m.log, e.log);
                }
            } else if subpath == "."@ {
                if let Some(main) = json::text_field(manifest, "main"@) {
                    let p = path::joined_path(directory, main);
                    let q = path_file(a, m.log, options, p);
                    lemma_path_file(a, b, m.log, options, p);
                    lemma_grows_on(log, m.log, q.log);
                    if q.found == Some(None::<Seq<char>>) {
                        let d = directory_file(a, q.log, options, directory);
                        lemma_directory_file(a, b, q.log, options, directory);
                        lemma_grows_on(log, q.log, d.log);
                        if agree(a, b, d.log.asked) {
                            lemma_agree_before(a, b, q.log, d.log);
                            lemma_agree_before(a, b, m.log, q.log);
                        }
                    } else if agree(a, b, q.log.asked) {
                        lemma_agree_before(a, b, m.log, q.log);
                    }
                } else {
                    let d = directory_file(a, m.log, options, directory);
                    lemma_directory_file(a, b, m.log, options, directory);
                    lemma_grows_on(log, m.log, d.log);
                    if agree(a, b, d.log.asked) {
                        lemma_agree_before(a, b, m.log, d.log);
                    }
                }
            } else {
                let p = path::joined_path(directory, without_dots(subpath));
                let q = path_file(a, m.log, options, p);
                lemma_path_file(a, b, m.log, options, p);
                lemma_grows_on(log, m.log, q.log);
                if agree(a, b, q.log.asked) {
                    lemma_agree_before(a, b, m.log, q.log);
                }
            }
        },
    }
}

proof fn lemma_bare_leads(
    a: Disk,
    b: Disk,
    log: LogModel,
    options: OptionsModel,
    root: Seq<char>,
    current: Seq<char>,
    package: Seq<char>,
    subpath: Seq<char>,
    kind: DependencyKind,
)
    ensures
        ({
            let q = bare_leads(a, log, options, root, current, package, subpath, kind);
            &&& is_sound_inquiry(a, log, q)
            &&& agree(a, b, q.log.asked) ==> bare_leads(
                b,
                log,
                options,
                root,
                current,
                package,
                subpath,
                kind,
            ) == q
        }),
    decreases current.len(),
{
    let all = bare_leads(a, log, options, root, current, package, subpath, kind);
    let directory = path::joined_path(path::joined_path(current, "node_modules"@), package);
    let skipped = path::file_name_of(current) == Some("node_modules"@);
    lemma_package_leads(a, b, log, options, directory, subpath, kind);
    let q = if skipped {
        Inquiry { log, found: Some(None) }
    } else {
        package_leads(a, log, options, directory, subpath, kind)
    };
    if q.found == Some(None::<Destination>) {
        if let Some(parent) = next_up(current, root) {
            let next = bare_leads(a, q.log, options, root, parent, package, subpath, kind);
            lemma_bare_leads(a, b, q.log, options, root, parent, package, subpath, kind);
            lemma_grows_on(log, q.log, next.log);
            if agree(a, b, next.log.asked) {
                lemma_agree_before(a, b, q.log, next.log);
            }
        }
    }
}

proof fn lemma_specifier_leads(
    a: Disk,
    b: Disk,
    log: LogModel,
    options: OptionsModel,
    root: Seq<char>,
    from: Seq<char>,
    specifier: Seq<char>,
    kind: DependencyKind,
)
    ensures
        ({
            let q = specifier_leads(a, log, options, root, from, specifier, kind);
            &&& is_sound_inquiry(a, log, q)
            &&& agree(a, b, q.log.asked) ==> specifier_leads(
                b,
                log,
                options,
                root,
                from,
                specifier,
                kind,
            ) == q
        }),
{
    let (package, subpath) = exports::bare_parts(specifier);
    lemma_path_file(a, b, log, options, path::joined_path(from, specifier));
    lemma_bare_leads(a, b, log, options, root, from, package, subpath, kind);
}

proof fn lemma_system_from(a: Disk, b: Disk, log: LogModel, root: Seq<char>, current: Seq<char>)
    ensures
        is_sound_inquiry(a, log, system_from(a, log, root, current)),
        agree(a, b, system_from(a, log, root, current).log.asked) ==> system_from(
            b,
            log,
            root,
            current,
        ) == system_from(a, log, root, current),
    decreases current.len(),
{
    let m = manifest_at(a, log, current);
    lemma_manifest_at(a, b, log, current);
    if m.found == Some(None::<JsonModel>) {
        if let Some(parent) = next_up(current, root) {
            let next = system_from(a, m.log, root, parent);
            lemma_system_from(a, b, m.log, root, parent);
            lemma_grows_on(log, m.log, next.log);
            if agree(a, b, next.log.asked) {
                lemma_agree_before(a, b, m.log, next.log);
            }
        }
    }
}

proof fn lemma_system_of(a: Disk, b: Disk, log: LogModel, root: Seq<char>, p: Seq<char>)
    ensures
        is_sound_inquiry(a, log, system_of(a, log, root, p)),
        agree(a, b, system_of(a, log, root, p).log.asked) ==> system_of(b, log, root, p)
            == system_of(a, log, root, p),
{
    if let Some(parent) = path::parent_of(p) {
        lemma_system_from(a, b, log, root, parent);
    }
}

proof fn lemma_loading(a: Disk, b: Disk, log: LogModel, root: Seq<char>, p: Seq<char>)
    ensures
        loading(a, log, root, p) matches Loading::Loaded { log: after, hash, system } ==> {
            &&& sorted::lookup(a, p) is Some && sorted::lookup(a, p)->0 is File
            &&& answered(a, log.asked) ==> answered(a, after.asked)
            &&& grows(ask(log, p), after)
            &&& grows(log, after)
            &&& agree(a, b, after.asked) ==> loading(b, log, root, p) == loading(a, log, root, p)
        },
        loading(a, log, root, p) matches Loading::Unknown(q) ==> sorted::lookup(a, q) is None,
{
    let asked = ask(log, p);
    if let Some(FactModel::File { hash, content }) = sorted::lookup(a, p) {
        let noted = if content is Invalid {
            note(asked, p, not_text())
        } else {
            asked
        };
        let s = system_of(a, noted, root, p);
        lemma_system_of(a, b, noted, root, p);
        assert(grows(asked, noted));
        lemma_grows_on(asked, noted, s.log);
        assert(grows(log, asked));
        lemma_grows_on(log, asked, s.log);
        if agree(a, b, s.log.asked) {
            lemma_agree_before(a, b, asked, s.log);
            assert(asked.asked[asked.asked.len() - 1] == p);
        }
    }
}

// ---------------------------------------------------------------------------
// The walk.

/// Files that were read, by absolute path, and the hash of what was read.
pub type Hashes = Seq<(Seq<char>, Seq<u8>)>;

/// Paths.
pub type Paths = Seq<(Seq<char>, ())>;

/// How far a walk has come.
#[verifier::ext_equal]
pub struct WalkModel {
    pub builder: BuilderModel,
    pub files: Hashes,
    pub missing: Paths,
    /// The entry, until it is loaded.
    pub entry: Option<Seq<char>>,
    /// Modules whose imports are not all resolved, the current one in front.
    pub queue: Seq<(usize, Seq<char>)>,
    /// What is left of the current module's imports, once they are known.
    pub pending: Option<Seq<Wanted>>,
}

/// The files that were read, after some more questions.
pub open spec fn files_after(disk: Disk, files: Hashes, asked: Seq<Seq<char>>) -> Hashes
    decreases asked.len(),
{
    if asked.len() == 0 {
        files
    } else {
        let front = files_after(disk, files, asked.drop_last());
        match sorted::lookup(disk, asked.last()) {
            Some(FactModel::File { hash, content }) => sorted::put(front, asked.last(), hash),
            _ => front,
        }
    }
}

/// The paths at which nothing was found, after some more questions.
pub open spec fn missing_after(disk: Disk, missing: Paths, asked: Seq<Seq<char>>) -> Paths
    decreases asked.len(),
{
    if asked.len() == 0 {
        missing
    } else {
        let front = missing_after(disk, missing, asked.drop_last());
        match sorted::lookup(disk, asked.last()) {
            Some(FactModel::Missing) => sorted::put(front, asked.last(), ()),
            _ => front,
        }
    }
}

/// A builder after some things were reported.
pub open spec fn noted(builder: BuilderModel, notes: Seq<NoteModel>) -> BuilderModel
    decreases notes.len(),
{
    if notes.len() == 0 {
        builder
    } else {
        graph::with_diagnostic(
            noted(builder, notes.drop_last()),
            notes.last().path,
            notes.last().message,
        )
    }
}

/// A walk after a log was entered into it.
pub open spec fn recorded(disk: Disk, walk: WalkModel, log: LogModel) -> WalkModel {
    WalkModel {
        builder: noted(walk.builder, log.notes),
        files: files_after(disk, walk.files, log.asked),
        missing: missing_after(disk, walk.missing, log.asked),
        ..walk
    }
}

/// What a walk asks for.
#[derive(PartialEq, Eq, Debug)]
pub enum Question {
    /// What is at a path.
    File(NormalizedPath),
}

/// What a `Question` stands for.
#[verifier::ext_equal]
pub enum QuestionModel {
    File(Seq<char>),
}

impl View for Question {
    type V = QuestionModel;

    open spec fn view(&self) -> QuestionModel {
        match self {
            Question::File(path) => QuestionModel::File(path@),
        }
    }
}

/// What a step comes to.
#[verifier::ext_equal]
pub enum Outcome {
    Next(WalkModel),
    Done,
    Ask(QuestionModel),
    Failed(ResolveErrorModel),
}

/// A walk that was not begun.
pub open spec fn walk_start(root: Seq<char>, entry: Seq<char>) -> WalkModel {
    WalkModel {
        builder: BuilderModel {
            root,
            paths: Seq::empty(),
            modules: Seq::empty(),
            diagnostics: Seq::empty(),
        },
        files: Seq::empty(),
        missing: Seq::empty(),
        entry: Some(path::joined_path(root, entry)),
        queue: Seq::empty(),
        pending: None,
    }
}

/// A walk after a module was loaded and registered; its imports are to be
/// resolved.
pub open spec fn with_loaded(
    disk: Disk,
    walk: WalkModel,
    p: Seq<char>,
    log: LogModel,
    hash: Seq<u8>,
    system: ModuleSystem,
) -> WalkModel {
    let r = recorded(disk, walk, log);
    let builder = graph::with_module(r.builder, p, hash, kind_of(p), system);
    WalkModel {
        builder,
        queue: walk.queue.push((graph::known_at(builder.paths, p) as usize, p)),
        ..r
    }
}

/// The first step: the entry is loaded.
pub open spec fn entry_step(disk: Disk, walk: WalkModel, p: Seq<char>) -> Outcome {
    let q = probed(disk, no_log(), p);
    match q.found {
        None => Outcome::Ask(QuestionModel::File(p)),
        Some(false) => Outcome::Failed(ResolveErrorModel::EntryNotFound(p)),
        Some(true) => match loading(disk, q.log, walk.builder.root, p) {
            Loading::Unknown(u) => Outcome::Ask(QuestionModel::File(u)),
            Loading::Failed(e) => Outcome::Failed(e),
            Loading::Loaded { log, hash, system } => Outcome::Next(
                WalkModel { entry: None, ..with_loaded(disk, walk, p, log, hash, system) },
            ),
        },
    }
}

/// A walk after the first pending import of its current module was resolved.
pub open spec fn with_edge(walk: WalkModel, wanted: Wanted, target: TargetModel) -> WalkModel {
    WalkModel {
        builder: graph::with_dependency(
            walk.builder,
            walk.queue[0].0 as int,
            DependencyModel { specifier: wanted.0, kind: wanted.1, target },
        ),
        pending: Some(walk.pending->0.skip(1)),
        ..walk
    }
}

/// What is said of a specifier that leads nowhere.
pub open spec fn complaint(specifier: Seq<char>, reason: Seq<char>) -> Seq<char> {
    "cannot resolve "@ + text::quoted(specifier) + ": "@ + reason
}

/// A step that resolves one import of the module at `p`.
pub open spec fn import_step(
    disk: Disk,
    options: OptionsModel,
    walk: WalkModel,
    p: Seq<char>,
    wanted: Wanted,
) -> Outcome {
    let root = walk.builder.root;
    let from = match path::parent_of(p) {
        Some(parent) => parent,
        None => root,
    };
    let q = specifier_leads(disk, no_log(), options, root, from, wanted.0, wanted.1);
    match q.found {
        None => Outcome::Ask(QuestionModel::File(q.log.asked.last())),
        Some(Destination::Builtin(name)) => Outcome::Next(
            with_edge(recorded(disk, walk, q.log), wanted, TargetModel::Builtin { name }),
        ),
        Some(Destination::Unresolved(reason)) => Outcome::Next(
            with_edge(
                recorded(disk, walk, note(q.log, p, complaint(wanted.0, reason))),
                wanted,
                TargetModel::Unresolved { reason },
            ),
        ),
        Some(Destination::Path(target)) => if walk.builder.paths.contains(target) {
            Outcome::Next(
                with_edge(
                    recorded(disk, walk, q.log),
                    wanted,
                    TargetModel::Module {
                        id: graph::known_at(walk.builder.paths, target) as usize,
                    },
                ),
            )
        } else {
            match loading(disk, q.log, root, target) {
                Loading::Unknown(u) => Outcome::Ask(QuestionModel::File(u)),
                Loading::Failed(e) => Outcome::Failed(e),
                Loading::Loaded { log, hash, system } => {
                    let next = with_loaded(disk, walk, target, log, hash, system);
                    Outcome::Next(
                        with_edge(
                            next,
                            wanted,
                            TargetModel::Module {
                                id: graph::known_at(next.builder.paths, target) as usize,
                            },
                        ),
                    )
                },
            }
        },
    }
}

/// One step of a walk: the entry is loaded, or the imports of the current module
/// become known, or one of them is resolved, or the module is done with.
pub open spec fn walk_step(
    disk: Disk,
    options: OptionsModel,
    walk: WalkModel,
) -> Outcome {
    match walk.entry {
        Some(p) => entry_step(disk, walk, p),
        None => if walk.queue.len() == 0 {
            Outcome::Done
        } else {
            let p = walk.queue[0].1;
            match walk.pending {
                None => {
                    let reading = reading_of(disk, options, p);
                    Outcome::Next(
                        WalkModel {
                            builder: noted(walk.builder, reading.notes),
                            pending: Some(reading.edges),
                            ..walk
                        },
                    )
                },
                Some(pending) => if pending.len() == 0 {
                    Outcome::Next(WalkModel { queue: walk.queue.skip(1), pending: None, ..walk })
                } else {
                    import_step(disk, options, walk, p, pending[0])
                },
            }
        },
    }
}

/// A module whose imports are to be resolved.
#[derive(Debug)]
struct Open {
    id: usize,
    path: NormalizedPath,
}

impl View for Open {
    type V = (usize, Seq<char>);

    closed spec fn view(&self) -> (usize, Seq<char>) {
        (self.id, self.path@)
    }
}

/// A walk over the imports of a project.
pub struct Resolver {
    root: NormalizedPath,
    options: ResolverOptions,
    builder: ModuleGraphBuilder,
    files: SortedMap<NormalizedPath, ContentHash>,
    missing: SortedMap<NormalizedPath, ()>,
    entry: Option<NormalizedPath>,
    queue: Vec<Open>,
    pending: Option<Vec<Edge>>,
}

impl View for Resolver {
    type V = WalkModel;

    closed spec fn view(&self) -> WalkModel {
        WalkModel {
            builder: self.builder@,
            files: self.files@,
            missing: self.missing@,
            entry: text::view_of(self.entry),
            queue: sorted::list_views(self.queue@),
            pending: match self.pending {
                Some(list) => Some(sorted::list_views(list@)),
                None => None,
            },
        }
    }
}

/// What a step came to.
pub enum Progress {
    /// The walk went on.
    Next(Resolver),
    /// Nothing is left to do.
    Done(Resolver),
    /// Something has to be known first. The walk is as it was.
    Ask(Resolver, Question),
    Failed(ResolveError),
}

/// Every filesystem fact the graph depends on, root-relative.
///
/// `files` are paths that were read, with the content that was read. `missing`
/// are paths probed and found absent, probed *before* the candidate that won,
/// so the set is exactly the negative facts the result relies on.
#[derive(PartialEq, Eq, Debug)]
pub struct ResolveTrace {
    pub files: SortedMap<NormalizedPath, ContentHash>,
    pub missing: SortedMap<NormalizedPath, ()>,
}

/// What a `ResolveTrace` stands for.
#[verifier::ext_equal]
pub struct TraceModel {
    pub files: Hashes,
    pub missing: Paths,
}

impl View for ResolveTrace {
    type V = TraceModel;

    open spec fn view(&self) -> TraceModel {
        TraceModel { files: self.files@, missing: self.missing@ }
    }
}

/// A resolved graph, and what it rests on.
pub struct Resolution {
    pub graph: ModuleGraph,
    pub trace: ResolveTrace,
}

/// Files by root-relative path.
pub open spec fn rooted_files(root: Seq<char>, files: Hashes) -> Hashes
    decreases files.len(),
{
    if files.len() == 0 {
        Seq::empty()
    } else {
        sorted::put(
            rooted_files(root, files.drop_last()),
            graph::rooted(root, files.last().0),
            files.last().1,
        )
    }
}

/// Paths relative to the root.
pub open spec fn rooted_paths(root: Seq<char>, paths: Paths) -> Paths
    decreases paths.len(),
{
    if paths.len() == 0 {
        Seq::empty()
    } else {
        sorted::put(
            rooted_paths(root, paths.drop_last()),
            graph::rooted(root, paths.last().0),
            (),
        )
    }
}

/// What a walk rests on.
pub open spec fn trace_of(walk: WalkModel) -> TraceModel {
    TraceModel {
        files: rooted_files(walk.builder.root, walk.files),
        missing: rooted_paths(walk.builder.root, walk.missing),
    }
}

/// The parts of a walk that a log is entered into.
struct Book {
    builder: ModuleGraphBuilder,
    files: SortedMap<NormalizedPath, ContentHash>,
    missing: SortedMap<NormalizedPath, ()>,
}

impl Book {
    /// Enters a log.
    fn record(&mut self, facts: &Facts, log: &Log)
        ensures
            final(self).builder@ == noted(old(self).builder@, log@.notes),
            final(self).files@ == files_after(facts.files@, old(self).files@, log@.asked),
            final(self).missing@ == missing_after(facts.files@, old(self).missing@, log@.asked),
    {
        let ghost asked = log@.asked;
        let ghost (files, missing) = (self.files@, self.missing@);
        let ghost builder = self.builder@;
        let mut i: usize = 0;
        assert(asked.len() == log.asked@.len());
        assert(asked.take(0) =~= Seq::empty());
        while i < log.asked.len()
            invariant
                i <= log.asked@.len(),
                asked == log@.asked,
                self.builder@ == builder,
                self.files@ == files_after(facts.files@, files, asked.take(i as int)),
                self.missing@ == missing_after(facts.files@, missing, asked.take(i as int)),
            decreases log.asked@.len() - i,
        {
            proof {
                assert(asked.take(i + 1).drop_last() =~= asked.take(i as int));
                assert(asked.take(i + 1).last() == log.asked@[i as int]@);
            }
            let p = &log.asked[i];
            match facts.files.get(p) {
                Some(Fact::File { hash, content: _ }) => {
                    self.files.insert(p.clone(), *hash);
                },
                Some(Fact::Missing) => {
                    self.missing.insert(p.clone(), ());
                },
                _ => {},
            }
            i += 1;
        }
        assert(asked.take(i as int) =~= asked);
        add_notes(&mut self.builder, &log.notes);
    }
}

fn add_notes(builder: &mut ModuleGraphBuilder, notes: &Vec<Note>)
    ensures
        final(builder)@ == noted(old(builder)@, sorted::list_views(notes@)),
{
    let ghost all = sorted::list_views(notes@);
    let ghost start = builder@;
    let mut k: usize = 0;
    assert(all.take(0) =~= Seq::empty());
    while k < notes.len()
        invariant
            k <= notes@.len(),
            all == sorted::list_views(notes@),
            builder@ == noted(start, all.take(k as int)),
        decreases notes@.len() - k,
    {
        proof {
            assert(all.take(k + 1).drop_last() =~= all.take(k as int));
            assert(all.take(k + 1).last() == notes@[k as int]@);
        }
        builder.add_diagnostic(&notes[k].path, notes[k].message.as_str());
        k += 1;
    }
    assert(all.take(k as int) =~= all);
}

/// Reports add to the diagnostics, and change nothing else.
pub proof fn lemma_noted(builder: BuilderModel, notes: Seq<NoteModel>)
    ensures
        noted(builder, notes).root == builder.root,
        noted(builder, notes).paths == builder.paths,
        noted(builder, notes).modules == builder.modules,
        forall|d: graph::DiagnosticModel|
            builder.diagnostics.contains(d) ==> #[trigger] noted(
                builder,
                notes,
            ).diagnostics.contains(d),
        notes.len() > 0 ==> noted(builder, notes).diagnostics.contains(
            (graph::DiagnosticModel {
                module: graph::rooted(builder.root, notes.last().path),
                message: notes.last().message,
            }),
        ),
    decreases notes.len(),
{
    if notes.len() > 0 {
        lemma_noted(builder, notes.drop_last());
        let front = noted(builder, notes.drop_last()).diagnostics;
        let all = noted(builder, notes).diagnostics;
        assert(all[all.len() - 1] == all.last());
        assert forall|d: graph::DiagnosticModel| builder.diagnostics.contains(
            d,
        ) implies #[trigger] all.contains(d) by {
            assert(front.contains(d));
            let k = choose|k: int| 0 <= k < front.len() && front[k] == d;
            assert(all[k] == d);
        }
    }
}

/// Whether every module that is open is one of the first `n`.
spec fn all_known(queue: Seq<(usize, Seq<char>)>, n: int) -> bool {
    forall|i: int| 0 <= i < queue.len() ==> (#[trigger] queue[i]).0 < n
}

impl Resolver {
    #[verifier::type_invariant]
    spec fn on_track(self) -> bool {
        &&& self.root@ == self.builder@.root
        &&& all_known(sorted::list_views(self.queue@), self.builder@.modules.len() as int)
        &&& self.entry is None ==> self.builder@.modules.len() > 0
    }

    /// How the walk resolves.
    pub closed spec fn given_options(&self) -> OptionsModel {
        self.options@
    }

    /// A walk from an entry, which is given relative to the root.
    pub fn start(root: &NormalizedPath, entry: &NormalizedPath, options: &ResolverOptions) -> (r:
        Self)
        ensures
            r@ == walk_start(root@, entry@),
            r.given_options() == options@,
    {
        let first = root.join(entry.as_str());
        let queue: Vec<Open> = Vec::new();
        assert(sorted::list_views(queue@) =~= Seq::empty());
        Resolver {
            root: root.clone(),
            options: options.clone(),
            builder: ModuleGraphBuilder::new(root.clone()),
            files: SortedMap::new(),
            missing: SortedMap::new(),
            entry: Some(first),
            queue,
            pending: None,
        }
    }

    /// Takes one step with what is known. Whoever is asked to find something out
    /// adds it to the facts and takes the step again.
    pub fn step(self, facts: &Facts) -> (r: Progress)
        ensures
            match (
                r,
                walk_step(facts.files@, self.given_options(), self@),
            ) {
                (Progress::Next(next), Outcome::Next(due)) => next@ == due && next.given_options()
                    == self.given_options(),
                (Progress::Done(same), Outcome::Done) => same@ == self@ && same.given_options()
                    == self.given_options(),
                (Progress::Ask(same, question), Outcome::Ask(due)) => same@ == self@
                    && same.given_options() == self.given_options() && question@ == due,
                (Progress::Failed(e), Outcome::Failed(due)) => e@ == due,
                _ => false,
            },
    {
        proof {
            use_type_invariant(&self);
        }
        if self.entry.is_some() {
            return self.take_entry(facts);
        }
        if self.queue.len() == 0 {
            return Progress::Done(self);
        }
        assert(self@.queue[0] == self.queue@[0]@);
        match &self.pending {
            None => {
                let path = self.queue[0].path.clone();
                let (edges, notes) = dependencies_of(facts, &self.options, &path);
                let Resolver {
                    root,
                    options,
                    builder,
                    files,
                    missing,
                    entry,
                    queue,
                    pending: _,
                } = self;
                let mut builder = builder;
                let ghost before = builder@;
                add_notes(&mut builder, &notes);
                proof {
                    lemma_noted(before, sorted::list_views(notes@));
                }
                Progress::Next(
                    Resolver {
                        root,
                        options,
                        builder,
                        files,
                        missing,
                        entry,
                        queue,
                        pending: Some(edges),
                    },
                )
            },
            Some(list) => {
                if list.len() == 0 {
                    let Resolver {
                        root,
                        options,
                        builder,
                        files,
                        missing,
                        entry,
                        queue,
                        pending: _,
                    } = self;
                    let mut queue = queue;
                    let ghost before = sorted::list_views(queue@);
                    queue.remove(0);
                    proof {
                        assert(sorted::list_views(queue@) =~= before.skip(1));
                        assert forall|i: int| 0 <= i < before.skip(1).len() implies (
                        #[trigger] before.skip(1)[i]).0 < builder@.modules.len() by {
                            assert(before.skip(1)[i] == before[i + 1]);
                        }
                    }
                    return Progress::Next(
                        Resolver {
                            root,
                            options,
                            builder,
                            files,
                            missing,
                            entry,
                            queue,
                            pending: None,
                        },
                    );
                }
                self.take_import(facts)
            },
        }
    }

    fn take_entry(self, facts: &Facts) -> (r: Progress)
        requires
            self@.entry is Some,
        ensures
            match (r, entry_step(facts.files@, self@, self@.entry->0)) {
                (Progress::Next(next), Outcome::Next(due)) => next@ == due && next.given_options()
                    == self.given_options(),
                (Progress::Ask(same, question), Outcome::Ask(due)) => same@ == self@
                    && same.given_options() == self.given_options() && question@ == due,
                (Progress::Failed(e), Outcome::Failed(due)) => e@ == due,
                _ => false,
            },
    {
        proof {
            use_type_invariant(&self);
        }
        let path = match &self.entry {
            Some(path) => path.clone(),
            None => {
                // The entry is there.
                return Progress::Done(self);
            },
        };
        let mut log = Log::new();
        match probe(facts, &mut log, &path) {
            None => {
                return Progress::Ask(self, Question::File(path));
            },
            Some(there) => {
                if !there {
                    return Progress::Failed(ResolveError::EntryNotFound(path));
                }
            },
        }
        match load(facts, &mut log, &self.root, &path) {
            Load::Unknown(unknown) => Progress::Ask(self, Question::File(unknown)),
            Load::Failed(e) => Progress::Failed(e),
            Load::Loaded { hash, system } => {
                let Resolver {
                    root,
                    options,
                    builder,
                    files,
                    missing,
                    entry: _,
                    queue,
                    pending,
                } = self;
                let mut book = Book { builder, files, missing };
                let mut queue = queue;
                let ghost opened = sorted::list_views(queue@);
                enter(&mut book, &mut queue, facts, &log, &path, hash, system);
                Progress::Next(
                    Resolver {
                        root,
                        options,
                        builder: book.builder,
                        files: book.files,
                        missing: book.missing,
                        entry: None,
                        queue,
                        pending,
                    },
                )
            },
        }
    }

    fn take_import(self, facts: &Facts) -> (r: Progress)
        requires
            self@.entry is None,
            self@.queue.len() > 0,
            self@.pending matches Some(list) && list.len() > 0,
        ensures
            match (
                r,
                import_step(
                    facts.files@,
                    self.given_options(),
                    self@,
                    self@.queue[0].1,
                    self@.pending->0[0],
                ),
            ) {
                (Progress::Next(next), Outcome::Next(due)) => next@ == due && next.given_options()
                    == self.given_options(),
                (Progress::Ask(same, question), Outcome::Ask(due)) => same@ == self@
                    && same.given_options() == self.given_options() && question@ == due,
                (Progress::Failed(e), Outcome::Failed(due)) => e@ == due,
                _ => false,
            },
    {
        proof {
            use_type_invariant(&self);
            assert(self@.queue[0] == self.queue@[0]@);
        }
        let path = self.queue[0].path.clone();
        let id: usize = self.queue[0].id;
        let (specifier, kind) = match &self.pending {
            Some(list) => {
                assert(self@.pending->0[0] == list@[0]@);
                (list[0].specifier.clone(), list[0].kind)
            },
            None => {
                // An import is pending.
                return Progress::Done(self);
            },
        };
        let from = match path.parent() {
            Some(parent) => parent,
            None => self.root.clone(),
        };
        let mut log = Log::new();
        let found = resolve_specifier(
            facts,
            &mut log,
            &self.options,
            &self.root,
            &from,
            specifier.as_str(),
            kind,
        );
        let ghost asked = log@;
        proof {
            lemma_specifier_leads(
                facts.files@,
                facts.files@,
                no_log(),
                self.options@,
                self.root@,
                from@,
                specifier@,
                kind,
            );
        }
        let found = match found {
            None => {
                return Progress::Ask(self, Question::File(log.last_asked()));
            },
            Some(found) => found,
        };
        let mut loaded: Option<(ContentHash, ModuleSystem)> = None;
        if let Target::Path(target) = &found {
            if self.builder.id_of(target).is_none() {
                match load(facts, &mut log, &self.root, target) {
                    Load::Unknown(unknown) => {
                        return Progress::Ask(self, Question::File(unknown));
                    },
                    Load::Failed(e) => {
                        return Progress::Failed(e);
                    },
                    Load::Loaded { hash, system } => {
                        loaded = Some((hash, system));
                    },
                }
            }
        }
        let Resolver { root, options, builder, files, missing, entry, queue, pending } = self;
        let mut book = Book { builder, files, missing };
        let mut queue = queue;
        let ghost opened = sorted::list_views(queue@);
        let ghost before = book.builder@;
        let target = match found {
            Target::Builtin(name) => {
                book.record(facts, &log);
                proof {
                    lemma_noted(before, log@.notes);
                }
                DependencyTarget::Builtin { name }
            },
            Target::Unresolved(reason) => {
                let mut out = text::chars_of("cannot resolve ");
                text::append_str(&mut out, text::quote(specifier.as_str()).as_str());
                text::append_str(&mut out, ": ");
                text::append_str(&mut out, reason.as_str());
                log.note(&path, text::string_of(&out));
                book.record(facts, &log);
                proof {
                    lemma_noted(before, log@.notes);
                }
                DependencyTarget::Unresolved { reason }
            },
            Target::Path(target) => {
                match loaded {
                    None => {
                        let known: usize = match book.builder.id_of(&target) {
                            Some(known) => known,
                            None => 0,
                        };
                        book.record(facts, &log);
                        proof {
                            lemma_noted(before, log@.notes);
                        }
                        DependencyTarget::Module { id: ModuleId::new(known) }
                    },
                    Some((hash, system)) => {
                        let known: usize = enter(
                            &mut book,
                            &mut queue,
                            facts,
                            &log,
                            &target,
                            hash,
                            system,
                        );
                        DependencyTarget::Module { id: ModuleId::new(known) }
                    },
                }
            },
        };
        let ghost grown = book.builder@;
        let dependency = Dependency { specifier, kind, target };
        proof {
            assert(opened[0].0 == id);
            assert(id < before.modules.len());
        }
        book.builder.add_dependency(id, dependency);
        let mut rest: Vec<Edge> = match pending {
            Some(list) => list,
            None => Vec::new(),
        };
        let ghost waiting = sorted::list_views(rest@);
        assert(waiting.len() == rest@.len());
        if rest.len() > 0 {
            rest.remove(0);
        }
        proof {
            assert(sorted::list_views(rest@) =~= waiting.skip(1));
            assert(sorted::list_views(queue@)[0] == opened[0]);
        }
        Progress::Next(
            Resolver {
                root,
                options,
                builder: book.builder,
                files: book.files,
                missing: book.missing,
                entry,
                queue,
                pending: Some(rest),
            },
        )
    }

    /// The graph, and what it rests on.
    pub fn finish(self) -> (r: Resolution)
        ensures
            r.graph@ == graph::finished(self@.builder),
            r.trace@ == trace_of(self@),
            self@.entry is None ==> graph::is_sound(r.graph@),
    {
        proof {
            use_type_invariant(&self);
        }
        let files = root_files(&self.root, &self.files);
        let missing = root_paths(&self.root, &self.missing);
        Resolution { graph: self.builder.finish(), trace: ResolveTrace { files, missing } }
    }
}

/// Enters a log, registers the module that was loaded, and opens it.
fn enter(
    book: &mut Book,
    queue: &mut Vec<Open>,
    facts: &Facts,
    log: &Log,
    path: &NormalizedPath,
    hash: ContentHash,
    system: ModuleSystem,
) -> (r: usize)
    requires
        all_known(
            sorted::list_views(old(queue)@),
            old(book).builder@.modules.len() as int,
        ),
    ensures
        final(book).files@ == files_after(facts.files@, old(book).files@, log@.asked),
        final(book).missing@ == missing_after(facts.files@, old(book).missing@, log@.asked),
        final(book).builder@ == graph::with_module(
            noted(old(book).builder@, log@.notes),
            path@,
            hash@,
            kind_of(path@),
            system,
        ),
        final(book).builder@.root == old(book).builder@.root,
        r == graph::known_at(final(book).builder@.paths, path@),
        r < final(book).builder@.modules.len(),
        final(book).builder@.modules.len() >= old(book).builder@.modules.len(),
        sorted::list_views(final(queue)@) == sorted::list_views(old(queue)@).push((r, path@)),
        all_known(
            sorted::list_views(final(queue)@),
            final(book).builder@.modules.len() as int,
        ),
{
    let ghost before = book.builder@;
    let ghost opened = sorted::list_views(queue@);
    book.record(facts, log);
    proof {
        lemma_noted(before, log@.notes);
    }
    let id: usize = book.builder.insert(path.clone(), hash, source_kind_of(path), system);
    let one = Open { id, path: path.clone() };
    queue.push(one);
    proof {
        assert(sorted::list_views(queue@) =~= opened.push((id, path@)));
        let all = opened.push((id, path@));
        assert forall|i: int| 0 <= i < all.len() implies (#[trigger] all[i]).0
            < book.builder@.modules.len() by {
            if i < opened.len() {
                assert(all[i] == opened[i]);
            }
        }
    }
    id
}

fn root_files(root: &NormalizedPath, files: &SortedMap<NormalizedPath, ContentHash>) -> (out:
    SortedMap<NormalizedPath, ContentHash>)
    ensures
        out@ == rooted_files(root@, files@),
{
    let mut out: SortedMap<NormalizedPath, ContentHash> = SortedMap::new();
    let n: usize = files.len();
    let mut i: usize = 0;
    while i < n
        invariant
            i <= n,
            n == files@.len(),
            out@ == rooted_files(root@, files@.take(i as int)),
        decreases n - i,
    {
        let p = files.key_at(i);
        let hash = files.value_at(i);
        proof {
            assert(files@.take(i + 1).drop_last() =~= files@.take(i as int));
            assert(files@.take(i + 1).last() == (p@, hash@));
        }
        out.insert(graph::relative(root, p), *hash);
        i += 1;
    }
    assert(files@.take(i as int) =~= files@);
    out
}

fn root_paths(root: &NormalizedPath, paths: &SortedMap<NormalizedPath, ()>) -> (out: SortedMap<
    NormalizedPath,
    (),
>)
    ensures
        out@ == rooted_paths(root@, paths@),
{
    let mut out: SortedMap<NormalizedPath, ()> = SortedMap::new();
    let n: usize = paths.len();
    let mut i: usize = 0;
    while i < n
        invariant
            i <= n,
            n == paths@.len(),
            out@ == rooted_paths(root@, paths@.take(i as int)),
        decreases n - i,
    {
        let p = paths.key_at(i);
        proof {
            assert(paths@.take(i + 1).drop_last() =~= paths@.take(i as int));
            assert(paths@.take(i + 1).last() == (p@, ()));
        }
        out.insert(graph::relative(root, p), ());
        i += 1;
    }
    assert(paths@.take(i as int) =~= paths@);
    out
}

// ---------------------------------------------------------------------------
// A walk rests on its trace.

/// A walk after a number of steps; it stays where it is once a step does not go
/// on.
pub open spec fn walked(
    disk: Disk,
    options: OptionsModel,
    walk: WalkModel,
    steps: nat,
) -> WalkModel
    decreases steps,
{
    if steps == 0 {
        walk
    } else {
        let before = walked(disk, options, walk, (steps - 1) as nat);
        match walk_step(disk, options, before) {
            Outcome::Next(after) => after,
            _ => before,
        }
    }
}

/// Whether two disks give the same answers wherever a walk found a file, or
/// found none.
pub open spec fn agree_on_trace(a: Disk, b: Disk, walk: WalkModel) -> bool {
    forall|p: Seq<char>|
        sorted::holds(walk.files, p) || sorted::holds(walk.missing, p) ==> #[trigger]
            sorted::lookup(a, p) == sorted::lookup(b, p)
}

/// Whether every file of a disk can be read.
pub open spec fn is_readable(disk: Disk) -> bool {
    forall|p: Seq<char>|
        #[trigger] sorted::lookup(disk, p) matches Some(fact) ==> !(fact is Unreadable)
}

/// Whether a walk kept track of everything: the modules that are open were read.
pub open spec fn keeps_track(walk: WalkModel) -> bool {
    &&& sorted::ascending(walk.files)
    &&& sorted::ascending(walk.missing)
    &&& forall|i: int|
        0 <= i < walk.queue.len() ==> sorted::holds(walk.files, (#[trigger] walk.queue[i]).1)
}

proof fn lemma_put_holds<V>(entries: Seq<(Seq<char>, V)>, key: Seq<char>, value: V, p: Seq<char>)
    requires
        sorted::ascending(entries),
    ensures
        sorted::ascending(sorted::put(entries, key, value)),
        sorted::holds(sorted::put(entries, key, value), key),
        sorted::holds(entries, p) ==> sorted::holds(sorted::put(entries, key, value), p),
{
    sorted::lemma_put_ascending(entries, key, value);
    sorted::lemma_put_lookup(entries, key, value, key);
    sorted::lemma_put_lookup(entries, key, value, p);
}

proof fn lemma_files_after(disk: Disk, files: Hashes, asked: Seq<Seq<char>>, p: Seq<char>)
    requires
        sorted::ascending(files),
    ensures
        sorted::ascending(files_after(disk, files, asked)),
        sorted::holds(files, p) ==> sorted::holds(files_after(disk, files, asked), p),
        asked.contains(p) && sorted::lookup(disk, p) is Some && sorted::lookup(disk, p)->0 is File
            ==> sorted::holds(files_after(disk, files, asked), p),
    decreases asked.len(),
{
    if asked.len() > 0 {
        let front = asked.drop_last();
        lemma_files_after(disk, files, front, p);
        if let Some(FactModel::File { hash, content }) = sorted::lookup(disk, asked.last()) {
            lemma_put_holds(files_after(disk, files, front), asked.last(), hash, p);
        }
        if asked.contains(p) && asked.last() != p {
            let k = choose|k: int| 0 <= k < asked.len() && asked[k] == p;
            assert(front[k] == p);
        }
    }
}

proof fn lemma_missing_after(disk: Disk, missing: Paths, asked: Seq<Seq<char>>, p: Seq<char>)
    requires
        sorted::ascending(missing),
    ensures
        sorted::ascending(missing_after(disk, missing, asked)),
        sorted::holds(missing, p) ==> sorted::holds(missing_after(disk, missing, asked), p),
        asked.contains(p) && sorted::lookup(disk, p) == Some(FactModel::Missing) ==> sorted::holds(
            missing_after(disk, missing, asked),
            p,
        ),
    decreases asked.len(),
{
    if asked.len() > 0 {
        let front = asked.drop_last();
        lemma_missing_after(disk, missing, front, p);
        if let Some(FactModel::Missing) = sorted::lookup(disk, asked.last()) {
            lemma_put_holds(missing_after(disk, missing, front), asked.last(), (), p);
        }
        if asked.contains(p) && asked.last() != p {
            let k = choose|k: int| 0 <= k < asked.len() && asked[k] == p;
            assert(front[k] == p);
        }
    }
}

proof fn lemma_same_record(a: Disk, b: Disk, files: Hashes, missing: Paths, asked: Seq<Seq<char>>)
    requires
        agree(a, b, asked),
    ensures
        files_after(a, files, asked) == files_after(b, files, asked),
        missing_after(a, missing, asked) == missing_after(b, missing, asked),
    decreases asked.len(),
{
    if asked.len() > 0 {
        let front = asked.drop_last();
        assert forall|i: int| 0 <= i < front.len() implies sorted::lookup(a, #[trigger] front[i])
            == sorted::lookup(b, front[i]) by {
            assert(asked[i] == front[i]);
        }
        lemma_same_record(a, b, files, missing, front);
        assert(asked[asked.len() - 1] == asked.last());
    }
}

/// Entering a log keeps track of all that was asked: a disk that agrees with the
/// trace agrees with the log.
proof fn lemma_recorded(a: Disk, b: Disk, walk: WalkModel, log: LogModel)
    requires
        is_readable(a),
        sorted::ascending(walk.files),
        sorted::ascending(walk.missing),
        answered(a, log.asked),
    ensures
        sorted::ascending(recorded(a, walk, log).files),
        sorted::ascending(recorded(a, walk, log).missing),
        forall|p: Seq<char>|
            sorted::holds(walk.files, p) ==> #[trigger] sorted::holds(
                recorded(a, walk, log).files,
                p,
            ),
        forall|p: Seq<char>|
            sorted::holds(walk.missing, p) ==> #[trigger] sorted::holds(
                recorded(a, walk, log).missing,
                p,
            ),
        agree_on_trace(a, b, recorded(a, walk, log)) ==> agree(a, b, log.asked) && recorded(
            b,
            walk,
            log,
        ) == recorded(a, walk, log),
{
    let r = recorded(a, walk, log);
    lemma_files_after(a, walk.files, log.asked, Seq::empty());
    lemma_missing_after(a, walk.missing, log.asked, Seq::empty());
    assert forall|p: Seq<char>| sorted::holds(walk.files, p) implies #[trigger] sorted::holds(
        r.files,
        p,
    ) by {
        lemma_files_after(a, walk.files, log.asked, p);
    }
    assert forall|p: Seq<char>| sorted::holds(walk.missing, p) implies #[trigger] sorted::holds(
        r.missing,
        p,
    ) by {
        lemma_missing_after(a, walk.missing, log.asked, p);
    }
    if agree_on_trace(a, b, r) {
        assert forall|i: int| 0 <= i < log.asked.len() implies sorted::lookup(
            a,
            #[trigger] log.asked[i],
        ) == sorted::lookup(b, log.asked[i]) by {
            let p = log.asked[i];
            assert(log.asked.contains(p));
            assert(sorted::lookup(a, p) is Some);
            lemma_files_after(a, walk.files, log.asked, p);
            lemma_missing_after(a, walk.missing, log.asked, p);
            assert(sorted::holds(r.files, p) || sorted::holds(r.missing, p));
        }
        lemma_same_record(a, b, walk.files, walk.missing, log.asked);
    }
}

/// Whether a step went on to where it keeps track, and would go there on any
/// disk that agrees with the trace.
spec fn goes_on(
    a: Disk,
    b: Disk,
    options: OptionsModel,
    walk: WalkModel,
    next: WalkModel,
) -> bool {
    &&& keeps_track(next)
    &&& forall|p: Seq<char>|
        sorted::holds(walk.files, p) ==> #[trigger] sorted::holds(next.files, p)
    &&& forall|p: Seq<char>|
        sorted::holds(walk.missing, p) ==> #[trigger] sorted::holds(next.missing, p)
    &&& agree_on_trace(a, b, next) ==> walk_step(b, options, walk) == Outcome::Next(next)
}

proof fn lemma_loaded(
    a: Disk,
    b: Disk,
    walk: WalkModel,
    start: LogModel,
    p: Seq<char>,
)
    requires
        is_readable(a),
        keeps_track(walk),
        answered(a, start.asked),
        loading(a, start, walk.builder.root, p) is Loaded,
    ensures
        ({
            let due = loading(a, start, walk.builder.root, p);
            let next = with_loaded(a, walk, p, due->log, due->hash, due->system);
            &&& keeps_track(next)
            &&& answered(a, due->log.asked)
            &&& grows(start, due->log)
            &&& forall|p: Seq<char>|
                sorted::holds(walk.files, p) ==> #[trigger] sorted::holds(next.files, p)
            &&& forall|p: Seq<char>|
                sorted::holds(walk.missing, p) ==> #[trigger] sorted::holds(next.missing, p)
            &&& agree_on_trace(a, b, next) ==> agree(a, b, due->log.asked) && loading(
                b,
                start,
                walk.builder.root,
                p,
            ) == due && with_loaded(b, walk, p, due->log, due->hash, due->system) == next
        }),
{
    let due = loading(a, start, walk.builder.root, p);
    let log = due->log;
    let next = with_loaded(a, walk, p, due->log, due->hash, due->system);
    let r = recorded(a, walk, log);
    lemma_loading(a, b, start, walk.builder.root, p);
    lemma_recorded(a, b, walk, log);
    let asked = ask(start, p).asked;
    assert(asked[asked.len() - 1] == p);
    assert(log.asked[asked.len() - 1] == p);
    assert(log.asked.contains(p));
    lemma_files_after(a, walk.files, log.asked, p);
    assert(next.files == r.files && next.missing == r.missing);
    assert forall|i: int| 0 <= i < next.queue.len() implies sorted::holds(
        next.files,
        (#[trigger] next.queue[i]).1,
    ) by {
        if i < walk.queue.len() {
            assert(next.queue[i] == walk.queue[i]);
            assert(sorted::holds(walk.files, walk.queue[i].1));
        }
    }
    if agree_on_trace(a, b, next) {
        assert(agree_on_trace(a, b, r)) by {
            assert forall|q: Seq<char>|
                sorted::holds(r.files, q) || sorted::holds(r.missing, q) implies #[trigger]
            sorted::lookup(a, q) == sorted::lookup(b, q) by {}
        }
    }
}

proof fn lemma_entry_step(a: Disk, b: Disk, walk: WalkModel)
    requires
        is_readable(a),
        keeps_track(walk),
        walk.entry is Some,
    ensures
        entry_step(a, walk, walk.entry->0) matches Outcome::Next(next) ==> {
            &&& keeps_track(next)
            &&& forall|p: Seq<char>|
                sorted::holds(walk.files, p) ==> #[trigger] sorted::holds(next.files, p)
            &&& forall|p: Seq<char>|
                sorted::holds(walk.missing, p) ==> #[trigger] sorted::holds(next.missing, p)
            &&& agree_on_trace(a, b, next) ==> entry_step(b, walk, walk.entry->0) == Outcome::Next(
                next,
            )
        },
{
    let p = walk.entry->0;
    let q = probed(a, no_log(), p);
    lemma_probed(a, b, no_log(), p);
    if q.found == Some(true) {
        if loading(a, q.log, walk.builder.root, p) is Loaded {
            lemma_loaded(a, b, walk, q.log, p);
            let due = loading(a, q.log, walk.builder.root, p);
            let next = with_loaded(a, walk, p, due->log, due->hash, due->system);
            let last = WalkModel { entry: None, ..next };
            if agree_on_trace(a, b, last) {
                assert(agree_on_trace(a, b, next)) by {
                    assert forall|r: Seq<char>|
                        sorted::holds(next.files, r) || sorted::holds(
                            next.missing,
                            r,
                        ) implies #[trigger] sorted::lookup(a, r) == sorted::lookup(b, r) by {
                        assert(sorted::holds(last.files, r) || sorted::holds(last.missing, r));
                    }
                }
                lemma_agree_before(a, b, q.log, due->log);
            }
        }
    }
}

proof fn lemma_import_step(
    a: Disk,
    b: Disk,
    options: OptionsModel,
    walk: WalkModel,
    p: Seq<char>,
    wanted: Wanted,
)
    requires
        is_readable(a),
        keeps_track(walk),
    ensures
        import_step(a, options, walk, p, wanted) matches Outcome::Next(next) ==> {
            &&& keeps_track(next)
            &&& forall|p: Seq<char>|
                sorted::holds(walk.files, p) ==> #[trigger] sorted::holds(next.files, p)
            &&& forall|p: Seq<char>|
                sorted::holds(walk.missing, p) ==> #[trigger] sorted::holds(next.missing, p)
            &&& agree_on_trace(a, b, next) ==> import_step(b, options, walk, p, wanted)
                == Outcome::Next(next)
        },
{
    let root = walk.builder.root;
    let from = match path::parent_of(p) {
        Some(parent) => parent,
        None => root,
    };
    let q = specifier_leads(a, no_log(), options, root, from, wanted.0, wanted.1);
    lemma_specifier_leads(a, b, no_log(), options, root, from, wanted.0, wanted.1);
    match q.found {
        None => {},
        Some(Destination::Builtin(name)) => {
            lemma_recorded(a, b, walk, q.log);
            lemma_edge_keeps_track(
                a,
                b,
                walk,
                recorded(a, walk, q.log),
                wanted,
                TargetModel::Builtin { name },
            );
        },
        Some(Destination::Unresolved(reason)) => {
            let log = note(q.log, p, complaint(wanted.0, reason));
            lemma_recorded(a, b, walk, log);
            lemma_edge_keeps_track(
                a,
                b,
                walk,
                recorded(a, walk, log),
                wanted,
                TargetModel::Unresolved { reason },
            );
        },
        Some(Destination::Path(target)) => {
            if walk.builder.paths.contains(target) {
                lemma_recorded(a, b, walk, q.log);
                lemma_edge_keeps_track(
                    a,
                    b,
                    walk,
                    recorded(a, walk, q.log),
                    wanted,
                    TargetModel::Module {
                        id: graph::known_at(walk.builder.paths, target) as usize,
                    },
                );
            } else if loading(a, q.log, root, target) is Loaded {
                lemma_loaded(a, b, walk, q.log, target);
                let due = loading(a, q.log, root, target);
                let next = with_loaded(a, walk, target, due->log, due->hash, due->system);
                let id = graph::known_at(next.builder.paths, target) as usize;
                lemma_edge_keeps_track(a, b, walk, next, wanted, TargetModel::Module { id });
                if agree_on_trace(a, b, with_edge(next, wanted, TargetModel::Module { id })) {
                    lemma_agree_before(a, b, q.log, due->log);
                }
            }
        },
    }
}

proof fn lemma_edge_keeps_track(
    a: Disk,
    b: Disk,
    walk: WalkModel,
    grown: WalkModel,
    wanted: Wanted,
    target: TargetModel,
)
    requires
        keeps_track(walk),
        sorted::ascending(grown.files),
        sorted::ascending(grown.missing),
        grown.queue == walk.queue || keeps_track(grown),
        forall|p: Seq<char>|
            sorted::holds(walk.files, p) ==> #[trigger] sorted::holds(grown.files, p),
    ensures
        keeps_track(with_edge(grown, wanted, target)),
        agree_on_trace(a, b, with_edge(grown, wanted, target)) ==> agree_on_trace(a, b, grown),
{
    let next = with_edge(grown, wanted, target);
    assert forall|i: int| 0 <= i < next.queue.len() implies sorted::holds(
        next.files,
        (#[trigger] next.queue[i]).1,
    ) by {
        assert(next.queue[i] == grown.queue[i]);
        if grown.queue == walk.queue {
            assert(sorted::holds(walk.files, walk.queue[i].1));
        }
    }
    if agree_on_trace(a, b, next) {
        assert forall|r: Seq<char>|
            sorted::holds(grown.files, r) || sorted::holds(grown.missing, r) implies #[trigger]
        sorted::lookup(a, r) == sorted::lookup(b, r) by {
            assert(sorted::holds(next.files, r) || sorted::holds(next.missing, r));
        }
    }
}

proof fn lemma_step_rests_on_trace(
    a: Disk,
    b: Disk,
    options: OptionsModel,
    walk: WalkModel,
)
    requires
        is_readable(a),
        keeps_track(walk),
    ensures
        walk_step(a, options, walk) matches Outcome::Next(next) ==> goes_on(
            a,
            b,
            options,
            walk,
            next,
        ),
{
    if walk.entry is Some {
        lemma_entry_step(a, b, walk);
    } else if walk.queue.len() > 0 {
        let p = walk.queue[0].1;
        match walk.pending {
            None => {
                {
                    let reading = reading_of(a, options, p);
                    let next = WalkModel {
                        builder: noted(walk.builder, reading.notes),
                        pending: Some(reading.edges),
                        ..walk
                    };
                    assert forall|i: int| 0 <= i < next.queue.len() implies sorted::holds(
                        next.files,
                        (#[trigger] next.queue[i]).1,
                    ) by {
                        assert(next.queue[i] == walk.queue[i]);
                    }
                    if agree_on_trace(a, b, next) {
                        assert(sorted::holds(next.files, walk.queue[0].1));
                        assert(sorted::lookup(a, p) == sorted::lookup(b, p));
                    }
                }
            },
            Some(pending) => {
                if pending.len() == 0 {
                    let next = WalkModel { queue: walk.queue.skip(1), pending: None, ..walk };
                    assert forall|i: int| 0 <= i < next.queue.len() implies sorted::holds(
                        next.files,
                        (#[trigger] next.queue[i]).1,
                    ) by {
                        assert(next.queue[i] == walk.queue[i + 1]);
                    }
                } else {
                    lemma_import_step(a, b, options, walk, p, pending[0]);
                }
            },
        }
    }
}

/// A walk over a disk whose files can all be read takes the same course, step by
/// step, over any other disk that agrees with it on the trace: that holds the
/// same content wherever the walk read a file, and no file wherever it found
/// none. What else is on that disk makes no difference.
pub proof fn walks_rest_on_their_trace(
    a: Disk,
    b: Disk,
    options: OptionsModel,
    root: Seq<char>,
    entry: Seq<char>,
    steps: nat,
)
    requires
        is_readable(a),
        agree_on_trace(a, b, walked(a, options, walk_start(root, entry), steps)),
        forall|n: nat|
            n < steps ==> walk_step(
                a,
                options,
                #[trigger] walked(a, options, walk_start(root, entry), n),
            ) is Next,
    ensures
        walked(b, options, walk_start(root, entry), steps) == walked(
            a,
            options,
            walk_start(root, entry),
            steps,
        ),
        keeps_track(walked(a, options, walk_start(root, entry), steps)),
    decreases steps,
{
    let start = walk_start(root, entry);
    if steps > 0 {
        let n = (steps - 1) as nat;
        let before = walked(a, options, start, n);
        let after = walked(a, options, start, steps);
        assert(walk_step(a, options, before) is Next);
        lemma_keeps_track(a, options, root, entry, n);
        lemma_step_rests_on_trace(a, b, options, before);
        assert(agree_on_trace(a, b, before)) by {
            assert forall|p: Seq<char>|
                sorted::holds(before.files, p) || sorted::holds(before.missing, p) implies #[trigger]
            sorted::lookup(a, p) == sorted::lookup(b, p) by {
                assert(sorted::holds(after.files, p) || sorted::holds(after.missing, p));
            }
        }
        walks_rest_on_their_trace(a, b, options, root, entry, n);
    }
}

proof fn lemma_keeps_track(
    a: Disk,
    options: OptionsModel,
    root: Seq<char>,
    entry: Seq<char>,
    steps: nat,
)
    requires
        is_readable(a),
    ensures
        keeps_track(walked(a, options, walk_start(root, entry), steps)),
    decreases steps,
{
    if steps > 0 {
        let n = (steps - 1) as nat;
        lemma_keeps_track(a, options, root, entry, n);
        let before = walked(a, options, walk_start(root, entry), n);
        lemma_step_rests_on_trace(a, a, options, before);
    }
}

/// Whether a walk's record is true of a disk.
pub open spec fn is_true_record(disk: Disk, walk: WalkModel) -> bool {
    &&& sorted::ascending(walk.files)
    &&& sorted::ascending(walk.missing)
    &&& forall|p: Seq<char>|
        #[trigger] sorted::holds(walk.files, p) ==> match sorted::lookup(disk, p) {
            Some(FactModel::File { hash, content }) => sorted::lookup(walk.files, p) == Some(hash),
            _ => false,
        }
    &&& forall|p: Seq<char>|
        #[trigger] sorted::holds(walk.missing, p) ==> sorted::lookup(disk, p) == Some(
            FactModel::Missing,
        )
}

proof fn lemma_true_files(disk: Disk, files: Hashes, asked: Seq<Seq<char>>, p: Seq<char>)
    requires
        sorted::ascending(files),
        sorted::holds(files, p) ==> (sorted::lookup(disk, p) matches Some(
            FactModel::File { hash, content },
        ) && sorted::lookup(files, p) == Some(hash)),
        sorted::holds(files_after(disk, files, asked), p),
    ensures
        sorted::lookup(disk, p) matches Some(FactModel::File { hash, content })
            && sorted::lookup(files_after(disk, files, asked), p) == Some(hash),
    decreases asked.len(),
{
    if asked.len() > 0 {
        let front = asked.drop_last();
        let before = files_after(disk, files, front);
        lemma_files_after(disk, files, front, p);
        if let Some(FactModel::File { hash, content }) = sorted::lookup(disk, asked.last()) {
            sorted::lemma_put_lookup(before, asked.last(), hash, p);
            order::lemma_text_rank_injective(p, asked.last());
            if p != asked.last() {
                lemma_true_files(disk, files, front, p);
            }
        } else {
            lemma_true_files(disk, files, front, p);
        }
    }
}

proof fn lemma_true_missing(disk: Disk, missing: Paths, asked: Seq<Seq<char>>, p: Seq<char>)
    requires
        sorted::ascending(missing),
        sorted::holds(missing, p) ==> sorted::lookup(disk, p) == Some(FactModel::Missing),
        sorted::holds(missing_after(disk, missing, asked), p),
    ensures
        sorted::lookup(disk, p) == Some(FactModel::Missing),
    decreases asked.len(),
{
    if asked.len() > 0 {
        let front = asked.drop_last();
        let before = missing_after(disk, missing, front);
        lemma_missing_after(disk, missing, front, p);
        if let Some(FactModel::Missing) = sorted::lookup(disk, asked.last()) {
            sorted::lemma_put_lookup(before, asked.last(), (), p);
            order::lemma_text_rank_injective(p, asked.last());
            if p != asked.last() {
                lemma_true_missing(disk, missing, front, p);
            }
        } else {
            lemma_true_missing(disk, missing, front, p);
        }
    }
}

proof fn lemma_true_record(disk: Disk, walk: WalkModel, log: LogModel)
    requires
        is_true_record(disk, walk),
    ensures
        is_true_record(disk, recorded(disk, walk, log)),
{
    let r = recorded(disk, walk, log);
    lemma_files_after(disk, walk.files, log.asked, Seq::empty());
    lemma_missing_after(disk, walk.missing, log.asked, Seq::empty());
    assert forall|p: Seq<char>| #[trigger] sorted::holds(r.files, p) implies match sorted::lookup(
        disk,
        p,
    ) {
        Some(FactModel::File { hash, content }) => sorted::lookup(r.files, p) == Some(hash),
        _ => false,
    } by {
        assert(sorted::holds(walk.files, p) || !sorted::holds(walk.files, p));
        lemma_true_files(disk, walk.files, log.asked, p);
    }
    assert forall|p: Seq<char>| #[trigger] sorted::holds(r.missing, p) implies sorted::lookup(
        disk,
        p,
    ) == Some(FactModel::Missing) by {
        assert(sorted::holds(walk.missing, p) || !sorted::holds(walk.missing, p));
        lemma_true_missing(disk, walk.missing, log.asked, p);
    }
}

proof fn lemma_same_record_true(disk: Disk, walk: WalkModel, other: WalkModel)
    requires
        is_true_record(disk, walk),
        walk.files == other.files,
        walk.missing == other.missing,
    ensures
        is_true_record(disk, other),
{
    assert forall|p: Seq<char>| #[trigger] sorted::holds(other.files, p) implies match sorted::lookup(
        disk,
        p,
    ) {
        Some(FactModel::File { hash, content }) => sorted::lookup(other.files, p) == Some(hash),
        _ => false,
    } by {
        assert(sorted::holds(walk.files, p));
    }
    assert forall|p: Seq<char>| #[trigger] sorted::holds(other.missing, p) implies sorted::lookup(
        disk,
        p,
    ) == Some(FactModel::Missing) by {
        assert(sorted::holds(walk.missing, p));
    }
}

proof fn lemma_step_records_truth(
    disk: Disk,
    options: OptionsModel,
    walk: WalkModel,
)
    requires
        is_true_record(disk, walk),
    ensures
        walk_step(disk, options, walk) matches Outcome::Next(next) ==> is_true_record(
            disk,
            next,
        ),
{
    if let Outcome::Next(next) = walk_step(disk, options, walk) {
        let root = walk.builder.root;
        if walk.entry is Some {
            let p = walk.entry->0;
            let q = probed(disk, no_log(), p);
            let due = loading(disk, q.log, root, p);
            lemma_true_record(disk, walk, due->log);
            lemma_same_record_true(disk, recorded(disk, walk, due->log), next);
        } else {
            let p = walk.queue[0].1;
            match walk.pending {
                None => {
                    lemma_same_record_true(disk, walk, next);
                },
                Some(pending) => {
                    if pending.len() == 0 {
                        lemma_same_record_true(disk, walk, next);
                    } else {
                        let wanted = pending[0];
                        let from = match path::parent_of(p) {
                            Some(parent) => parent,
                            None => root,
                        };
                        let q = specifier_leads(
                            disk,
                            no_log(),
                            options,
                            root,
                            from,
                            wanted.0,
                            wanted.1,
                        );
                        let log = match q.found {
                            Some(Destination::Unresolved(reason)) => note(
                                q.log,
                                p,
                                complaint(wanted.0, reason),
                            ),
                            Some(Destination::Path(target)) => if walk.builder.paths.contains(
                                target,
                            ) {
                                q.log
                            } else {
                                loading(disk, q.log, root, target)->log
                            },
                            _ => q.log,
                        };
                        lemma_true_record(disk, walk, log);
                        lemma_same_record_true(disk, recorded(disk, walk, log), next);
                    }
                },
            }
        }
    }
}

/// What a walk recorded is what is on disk, and its root stays the one it started
/// with.
pub proof fn lemma_walk_facts(
    disk: Disk,
    options: OptionsModel,
    root: Seq<char>,
    entry: Seq<char>,
    steps: nat,
)
    ensures
        is_true_record(disk, walked(disk, options, walk_start(root, entry), steps)),
        walked(disk, options, walk_start(root, entry), steps).builder.root == root,
    decreases steps,
{
    let start = walk_start(root, entry);
    if steps == 0 {
        assert forall|p: Seq<char>| !(#[trigger] sorted::holds(start.files, p)) by {
            sorted::lemma_slot(start.files, p);
        }
        assert forall|p: Seq<char>| !(#[trigger] sorted::holds(start.missing, p)) by {
            sorted::lemma_slot(start.missing, p);
        }
    } else {
        let n = (steps - 1) as nat;
        lemma_walk_facts(disk, options, root, entry, n);
        let before = walked(disk, options, start, n);
        lemma_step_records_truth(disk, options, before);
        lemma_root_stays(disk, options, before);
    }
}

proof fn lemma_root_stays(disk: Disk, options: OptionsModel, walk: WalkModel)
    ensures
        walk_step(disk, options, walk) matches Outcome::Next(next) ==> next.builder.root
            == walk.builder.root,
{
    if let Outcome::Next(next) = walk_step(disk, options, walk) {
        assert forall|notes: Seq<NoteModel>| (#[trigger] noted(walk.builder, notes)).root
            == walk.builder.root by {
            lemma_noted(walk.builder, notes);
        }
    }
}

/// Whether a step took a file that was no module before: its imports are to be
/// resolved later, and once only.
pub open spec fn takes_a_new_file(disk: Disk, walk: WalkModel, next: WalkModel) -> bool {
    let p = next.builder.paths.last();
    &&& next.builder.paths == walk.builder.paths.push(p)
    &&& !walk.builder.paths.contains(p)
    &&& sorted::lookup(disk, p) matches Some(fact) && fact is File
    &&& next.queue.len() == walk.queue.len() + 1
    &&& next.queue.last().1 == p
}

/// Whether a step left less to do: the imports of the current module are known,
/// or one of them is done with, or all of the module is.
pub open spec fn leaves_less_to_do(walk: WalkModel, next: WalkModel) -> bool {
    &&& next.builder.paths == walk.builder.paths
    &&& {
        ||| next.queue == walk.queue && walk.pending is None && next.pending is Some
        ||| next.queue == walk.queue && (walk.pending matches Some(before) && next.pending matches Some(
            after,
        ) && after.len() < before.len())
        ||| walk.queue.len() > 0 && next.queue == walk.queue.skip(1)
    }
}

/// Every step takes a file that was no module before, or leaves less to do. So a
/// walk over finitely many files ends, whatever cycles their imports have.
pub proof fn walk_steps_make_progress(
    disk: Disk,
    options: OptionsModel,
    walk: WalkModel,
)
    requires
        walk.entry is Some ==> walk.builder.paths.len() == 0,
    ensures
        walk_step(disk, options, walk) matches Outcome::Next(next) ==> next.entry is None
            && (takes_a_new_file(disk, walk, next) || leaves_less_to_do(walk, next)),
{
    assert forall|notes: Seq<NoteModel>| (#[trigger] noted(walk.builder, notes)).paths
        == walk.builder.paths by {
        lemma_noted(walk.builder, notes);
    }
}

/// Each file is one module, however many imports lead to it.
pub proof fn files_are_modules_once(
    disk: Disk,
    options: OptionsModel,
    root: Seq<char>,
    entry: Seq<char>,
    steps: nat,
)
    ensures
        ({
            let walk = walked(disk, options, walk_start(root, entry), steps);
            &&& walk.builder.paths.no_duplicates()
            &&& walk.entry is Some ==> walk.builder.paths.len() == 0
        }),
    decreases steps,
{
    if steps > 0 {
        let n = (steps - 1) as nat;
        files_are_modules_once(disk, options, root, entry, n);
        let before = walked(disk, options, walk_start(root, entry), n);
        walk_steps_make_progress(disk, options, before);
    }
}

/// A step that asks for something asks for what is not known.
pub proof fn questions_are_open(
    disk: Disk,
    options: OptionsModel,
    walk: WalkModel,
)
    ensures
        match walk_step(disk, options, walk) {
            Outcome::Ask(QuestionModel::File(p)) => sorted::lookup(disk, p) is None,
            _ => true,
        },
{
    match walk.entry {
        Some(p) => {
            let q = probed(disk, no_log(), p);
            lemma_probed(disk, disk, no_log(), p);
            lemma_loading(disk, disk, q.log, walk.builder.root, p);
        },
        None => {
            if walk.queue.len() > 0 {
                if let Some(pending) = walk.pending {
                    if pending.len() > 0 {
                        let p = walk.queue[0].1;
                        let wanted = pending[0];
                        let root = walk.builder.root;
                        let from = match path::parent_of(p) {
                            Some(parent) => parent,
                            None => root,
                        };
                        let q = specifier_leads(
                            disk,
                            no_log(),
                            options,
                            root,
                            from,
                            wanted.0,
                            wanted.1,
                        );
                        lemma_specifier_leads(
                            disk,
                            disk,
                            no_log(),
                            options,
                            root,
                            from,
                            wanted.0,
                            wanted.1,
                        );
                        if let Some(Destination::Path(target)) = q.found {
                            lemma_loading(disk, disk, q.log, root, target);
                        }
                    }
                }
            }
        },
    }
}

} // verus!
