//! Which projects use this cache.
//!
//! The cache is global and projects live anywhere, so garbage collection has no
//! way to find the lockfiles that keep objects alive unless installs leave a
//! trail. Every successful install records its project root here, and a
//! collection walks the trail to build its mark set.
//!
//! Entries are a hint, not a source of truth: one that no longer names a project
//! with a lockfile is dropped on the next collection, and a project missing from
//! the index only risks its packages being re-downloaded (its `node_modules`
//! files are hardlinks and survive their object being unlinked).

use vstd::prelude::*;
use crate::hash::HashBuilder;
use crate::native::{NativePath, NativePathModel};
use crate::sorted::SortedMap;
use crate::{hash, native, sorted, text};

verus! {

/// What went wrong with the index.
#[derive(Debug)]
pub enum ProjectError {
    Io { path: String, message: String },
}

/// The message for a failure.
pub open spec fn project_error_text(e: ProjectError) -> Seq<char> {
    match e {
        ProjectError::Io { path, message } => path@ + ": "@ + message@,
    }
}

impl ProjectError {
    /// The message shown to the user.
    pub fn to_string(&self) -> (r: String)
        ensures
            r@ == project_error_text(*self),
    {
        match self {
            ProjectError::Io { path, message } => {
                let mut out = text::chars_of(path.as_str());
                text::append_str(&mut out, ": ");
                text::append_str(&mut out, message.as_str());
                text::string_of(&out)
            },
        }
    }
}

/// The index of projects.
#[derive(Debug)]
pub struct ProjectIndex {
    directory: String,
}

impl View for ProjectIndex {
    type V = Seq<char>;

    closed spec fn view(&self) -> Seq<char> {
        self.directory@
    }
}

/// Where the entry of a project is.
pub open spec fn entry_path_of(directory: Seq<char>, project_root: Seq<char>) -> Seq<char> {
    native::joined_native(
        directory,
        hash::hex(hash::key_of(entry_parts(project_root))),
    )
}

/// What the name of a project's entry takes in.
pub open spec fn entry_parts(project_root: Seq<char>) -> Seq<Seq<u8>> {
    seq![hash::text_part("opal.pm.project.v1"@), hash::text_part(project_root)]
}

/// What an entry says: the root of a project, with any space around it.
pub open spec fn recorded_root(content: Seq<char>) -> Option<Seq<char>> {
    if text::trimmed(content).len() > 0 {
        Some(text::trimmed(content))
    } else {
        None
    }
}

/// The roots that entries record, each once, in order.
pub open spec fn recorded_roots(contents: Seq<Seq<char>>) -> Seq<(NativePathModel, ())>
    decreases contents.len(),
{
    if contents.len() == 0 {
        Seq::empty()
    } else {
        let front = recorded_roots(contents.drop_last());
        match recorded_root(contents.last()) {
            Some(path) => sorted::put(front, NativePathModel { path }, ()),
            None => front,
        }
    }
}

impl ProjectIndex {
    /// The index in a directory.
    pub fn at(directory: &str) -> (r: Self)
        ensures
            r@ == directory@,
    {
        ProjectIndex { directory: directory.to_string() }
    }

    /// The directory of the index.
    pub fn directory(&self) -> (r: &str)
        ensures
            r@ == self@,
    {
        self.directory.as_str()
    }

    /// Where the entry of a project is.
    pub fn entry_path(&self, project_root: &str) -> (r: String)
        ensures
            r@ == entry_path_of(self@, project_root@),
    {
        let mut builder = HashBuilder::new("opal.pm.project.v1");
        builder.push_str(project_root);
        proof {
            let domain = hash::text_part("opal.pm.project.v1"@);
            let part = hash::text_part(project_root@);
            hash::lemma_framed_push(seq![domain], part);
            assert(seq![domain].push(part) =~= seq![domain, part]);
        }
        native::join(self.directory.as_str(), builder.finish().to_hex().as_str())
    }

    /// The text of the entry of a project.
    pub fn entry_text(project_root: &str) -> (r: String)
        ensures
            r@ == project_root@ + "\n"@,
    {
        text::concat(project_root.to_string(), "\n")
    }

    /// Every recorded project root, deduplicated and sorted, from the texts of
    /// the entries. An entry that could not be read is a hint that cannot be used,
    /// not a failure: the worst case is a re-download.
    pub fn known(contents: &Vec<String>) -> (r: Vec<NativePath>)
        ensures
            r@.len() == recorded_roots(text::strings(contents@)).len(),
            forall|i: int|
                0 <= i < r@.len() ==> (#[trigger] r@[i])@ == recorded_roots(
                    text::strings(contents@),
                )[i].0,
    {
        let ghost all = text::strings(contents@);
        let mut roots: SortedMap<NativePath, ()> = SortedMap::new();
        let mut i: usize = 0;
        assert(all.take(0) =~= Seq::empty());
        while i < contents.len()
            invariant
                i <= contents@.len(),
                all == text::strings(contents@),
                roots@ == recorded_roots(all.take(i as int)),
            decreases contents@.len() - i,
        {
            proof {
                assert(all.take(i + 1).drop_last() =~= all.take(i as int));
                assert(all.take(i + 1).last() == contents@[i as int]@);
            }
            let chars = text::chars_of(contents[i].as_str());
            let trimmed = text::trim(&chars);
            if trimmed.len() > 0 {
                roots.insert(NativePath { path: text::string_of(trimmed) }, ());
            }
            i += 1;
        }
        assert(all.len() == contents@.len());
        assert(all.take(i as int) =~= all);
        let mut out: Vec<NativePath> = Vec::new();
        let n: usize = roots.len();
        let mut k: usize = 0;
        while k < n
            invariant
                k <= n,
                n == roots@.len(),
                out@.len() == k,
                forall|i: int| 0 <= i < k ==> (#[trigger] out@[i])@ == roots@[i].0,
            decreases n - k,
        {
            out.push(roots.key_at(k).clone());
            k += 1;
        }
        out
    }
}

/// What was recorded for a project is read back, as long as its root neither
/// starts nor ends with white space.
pub proof fn records_read_back(project_root: Seq<char>)
    requires
        project_root.len() > 0,
        !text::is_space(project_root[0]),
        !text::is_space(project_root.last()),
    ensures
        recorded_root(project_root + "\n"@) == Some(project_root),
{
    reveal_strlit("\n");
    let s = project_root + "\n"@;
    assert(s[0] == project_root[0]);
    assert(s.drop_last() =~= project_root);
    assert(text::trimmed_end(s) == text::trimmed_end(project_root));
}

/// Recording a project again changes nothing.
pub proof fn recording_is_idempotent(contents: Seq<Seq<char>>, content: Seq<char>)
    ensures
        recorded_roots(contents.push(content).push(content)) == recorded_roots(
            contents.push(content),
        ),
{
    let once = contents.push(content);
    let twice = once.push(content);
    assert(twice.drop_last() =~= once);
    assert(once.drop_last() =~= contents);
    if let Some(path) = recorded_root(content) {
        let key = NativePathModel { path };
        let all = recorded_roots(once);
        lemma_recorded_ascending(contents);
        let front = recorded_roots(contents);
        sorted::lemma_slot(front, key);
        sorted::lemma_put_ascending(front, key, ());
        let at = sorted::slot(front, key) as int;
        sorted::lemma_holds_at(all, key, at);
        assert(all.update(at, (all[at].0, ())) =~= all);
    }
}

proof fn lemma_recorded_ascending(contents: Seq<Seq<char>>)
    ensures
        sorted::ascending(recorded_roots(contents)),
    decreases contents.len(),
{
    if contents.len() > 0 {
        lemma_recorded_ascending(contents.drop_last());
        if let Some(path) = recorded_root(contents.last()) {
            sorted::lemma_put_ascending(
                recorded_roots(contents.drop_last()),
                NativePathModel { path },
                (),
            );
        }
    }
}

proof fn lemma_held(contents: Seq<Seq<char>>, root: Seq<char>)
    ensures
        sorted::holds(recorded_roots(contents), NativePathModel { path: root }) <==> exists|i: int|
            0 <= i < contents.len() && recorded_root(#[trigger] contents[i]) == Some(root),
    decreases contents.len(),
{
    let key = NativePathModel { path: root };
    if contents.len() > 0 {
        let rest = contents.drop_last();
        let front = recorded_roots(rest);
        let last = contents[contents.len() - 1];
        lemma_held(rest, root);
        lemma_recorded_ascending(rest);
        if let Some(path) = recorded_root(last) {
            let given = NativePathModel { path };
            sorted::lemma_put_lookup(front, given, (), key);
            native::lemma_native_rank_injective(path, root);
        }
        if exists|i: int|
            0 <= i < rest.len() && recorded_root(#[trigger] rest[i]) == Some(root) {
            let i = choose|i: int|
                0 <= i < rest.len() && recorded_root(#[trigger] rest[i]) == Some(root);
            assert(contents[i] == rest[i]);
        }
        if exists|i: int|
            0 <= i < contents.len() && recorded_root(#[trigger] contents[i]) == Some(root) {
            let i = choose|i: int|
                0 <= i < contents.len() && recorded_root(#[trigger] contents[i]) == Some(root);
            if i < rest.len() {
                assert(rest[i] == contents[i]);
            }
        }
    }
}

/// The projects that are known are those that some entry records.
pub proof fn known_projects_are_recorded(contents: Seq<Seq<char>>, root: Seq<char>)
    requires
        root.len() > 0,
        !text::is_space(root[0]),
        !text::is_space(root.last()),
    ensures
        contents.contains(root + "\n"@) ==> sorted::holds(
            recorded_roots(contents),
            NativePathModel { path: root },
        ),
        sorted::holds(recorded_roots(contents), NativePathModel { path: root }) ==> exists|i: int|
            0 <= i < contents.len() && text::trimmed(#[trigger] contents[i]) == root,
{
    records_read_back(root);
    lemma_held(contents, root);
    if contents.contains(root + "\n"@) {
        let i = choose|i: int| 0 <= i < contents.len() && contents[i] == root + "\n"@;
        assert(recorded_root(contents[i]) == Some(root));
    }
    if sorted::holds(recorded_roots(contents), NativePathModel { path: root }) {
        let i = choose|i: int|
            0 <= i < contents.len() && recorded_root(#[trigger] contents[i]) == Some(root);
        assert(text::trimmed(contents[i]) == root);
    }
}

/// Each project has an entry of its own: what is hashed for the entries of two projects is
/// the same only where their roots are.
pub proof fn projects_have_their_own_entries(a: Seq<char>, b: Seq<char>)
    requires
        entry_parts(a) == entry_parts(b),
    ensures
        a == b,
{
    assert(entry_parts(a)[1] == entry_parts(b)[1]);
    hash::lemma_parts_injective(a, b, 0, 0);
}

} // verus!
