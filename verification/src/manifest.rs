//! `package.json`, read leniently.
//!
//! Every field is optional and every unexpected shape is ignored rather than
//! fatal: npm tarballs in the wild contain manifests with numbers where strings
//! belong and objects where arrays belong, and one of them must not be able to
//! fail an install of an unrelated package. Values that *are* well-formed are
//! taken at face value.

use vstd::prelude::*;
use crate::json::{Json, JsonModel};
use crate::order::{Order, Rank, Ranked};
use crate::semver::{Range, RangeModel, Version, VersionModel};
use crate::sorted::SortedMap;
use crate::{json, order, semver, sorted, text};

verus! {

/// Why a manifest could not be read.
#[derive(PartialEq, Eq, Debug)]
pub enum ManifestError {
    Io { path: String, message: String },
    Json { path: String, message: String },
}

/// The message for a failure.
pub open spec fn manifest_error_text(e: ManifestError) -> Seq<char> {
    match e {
        ManifestError::Io { path, message } => path@ + ": "@ + message@,
        ManifestError::Json { path, message } => path@ + ": not valid JSON: "@ + message@,
    }
}

impl ManifestError {
    /// The message shown to the user.
    pub fn to_string(&self) -> (r: String)
        ensures
            r@ == manifest_error_text(*self),
    {
        match self {
            ManifestError::Io { path, message } => {
                let mut out = text::chars_of(path.as_str());
                text::append_str(&mut out, ": ");
                text::append_str(&mut out, message.as_str());
                text::string_of(&out)
            },
            ManifestError::Json { path, message } => {
                let mut out = text::chars_of(path.as_str());
                text::append_str(&mut out, ": not valid JSON: ");
                text::append_str(&mut out, message.as_str());
                text::string_of(&out)
            },
        }
    }
}

/// How a dependency was declared, which decides whether a missing package is a
/// problem.
#[derive(Clone, Copy, PartialEq, Eq, PartialOrd, Ord, Debug, Structural)]
pub enum DependencyClass {
    Runtime,
    Development,
    Optional,
    Peer,
    OptionalPeer,
}

/// Whether an absent package of a class is expected rather than broken.
pub open spec fn absence_is_tolerated(class: DependencyClass) -> bool {
    class == DependencyClass::Optional || class == DependencyClass::OptionalPeer || class
        == DependencyClass::Peer
}

/// What a class is called.
pub open spec fn class_label(class: DependencyClass) -> Seq<char> {
    match class {
        DependencyClass::Runtime => "dependency"@,
        DependencyClass::Development => "devDependency"@,
        DependencyClass::Optional => "optionalDependency"@,
        DependencyClass::Peer => "peerDependency"@,
        DependencyClass::OptionalPeer => "optional peerDependency"@,
    }
}

/// The place of a class among the classes.
pub open spec fn class_place(class: DependencyClass) -> int {
    match class {
        DependencyClass::Runtime => 0,
        DependencyClass::Development => 1,
        DependencyClass::Optional => 2,
        DependencyClass::Peer => 3,
        DependencyClass::OptionalPeer => 4,
    }
}

impl DependencyClass {
    /// Whether an absent package of this class is expected rather than broken.
    pub fn tolerates_absence(self) -> (r: bool)
        ensures
            r == absence_is_tolerated(self),
    {
        matches!(
            self,
            DependencyClass::Optional | DependencyClass::OptionalPeer | DependencyClass::Peer
        )
    }

    /// What the class is called.
    pub fn label(self) -> (r: &'static str)
        ensures
            r@ == class_label(self),
    {
        match self {
            DependencyClass::Runtime => "dependency",
            DependencyClass::Development => "devDependency",
            DependencyClass::Optional => "optionalDependency",
            DependencyClass::Peer => "peerDependency",
            DependencyClass::OptionalPeer => "optional peerDependency",
        }
    }

    /// The place of the class among the classes.
    pub fn place(self) -> (r: u8)
        ensures
            r == class_place(self),
    {
        match self {
            DependencyClass::Runtime => 0,
            DependencyClass::Development => 1,
            DependencyClass::Optional => 2,
            DependencyClass::Peer => 3,
            DependencyClass::OptionalPeer => 4,
        }
    }
}

/// Rank of something that is ordered by class first and by name second.
pub open spec fn class_and_name_rank(class: DependencyClass, name: Seq<char>) -> Seq<int> {
    seq![class_place(class)] + order::text_rank(name)
}

/// Compares by class first and by name second.
pub fn compare_class_and_name(
    class: DependencyClass,
    name: &str,
    other_class: DependencyClass,
    other_name: &str,
) -> (r: Order)
    ensures
        r.holds(class_and_name_rank(class, name@), class_and_name_rank(other_class, other_name@)),
{
    let ghost a = class_and_name_rank(class, name@);
    let ghost b = class_and_name_rank(other_class, other_name@);
    proof {
        assert(a[0] == class_place(class));
        assert(b[0] == class_place(other_class));
        assert(a.skip(1) =~= order::text_rank(name@));
        assert(b.skip(1) =~= order::text_rank(other_name@));
    }
    let (left, right): (u8, u8) = (class.place(), other_class.place());
    if left < right {
        Order::Less
    } else if right < left {
        Order::Greater
    } else {
        order::compare_text(name, other_name)
    }
}

// ---------------------------------------------------------------------------
// Specifiers.

/// How a dependency names what it wants.
#[derive(Debug, PartialEq, Eq)]
pub enum Spec {
    Range(Range),
    /// A dist-tag: `"latest"`, `"next"`. Resolved against the packument, not
    /// against version ordering.
    Tag(String),
    /// `git+https://…`, `file:../x`, `npm:alias@^1`. Only the public registry is
    /// supported, so these are reported rather than guessed at.
    Unsupported(String),
}

/// What a `Spec` stands for.
#[verifier::ext_equal]
pub enum SpecModel {
    Range(RangeModel),
    Tag(Seq<char>),
    Unsupported(Seq<char>),
}

impl View for Spec {
    type V = SpecModel;

    open spec fn view(&self) -> SpecModel {
        match self {
            Spec::Range(range) => SpecModel::Range(range@),
            Spec::Tag(tag) => SpecModel::Tag(tag@),
            Spec::Unsupported(given) => SpecModel::Unsupported(given@),
        }
    }
}

impl Clone for Spec {
    fn clone(&self) -> (r: Self)
        ensures
            r@ == self@,
    {
        match self {
            Spec::Range(range) => Spec::Range(range.clone()),
            Spec::Tag(tag) => Spec::Tag(tag.clone()),
            Spec::Unsupported(given) => Spec::Unsupported(given.clone()),
        }
    }
}

/// A character of a dist-tag.
pub open spec fn is_tag_char(c: char) -> bool {
    semver::is_identifier_char(c) || c == '_' || c == '.'
}

/// What a specifier means: a range where it reads as one, else a tag where it
/// is made of the characters of one.
pub open spec fn spec_of(given: Seq<char>) -> SpecModel {
    let s = text::trimmed(given);
    match semver::range_of(s) {
        Some(range) => SpecModel::Range(range),
        None => if s.len() > 0 && (forall|i: int|
            0 <= i < s.len() ==> is_tag_char(#[trigger] s[i])) {
            SpecModel::Tag(s)
        } else {
            SpecModel::Unsupported(s)
        },
    }
}

/// A specifier as it is written.
pub open spec fn spec_text(spec: SpecModel) -> Seq<char> {
    match spec {
        SpecModel::Range(range) => range.raw,
        SpecModel::Tag(tag) => tag,
        SpecModel::Unsupported(given) => given,
    }
}

impl Spec {
    /// Reads a specifier; there is none that cannot be read.
    pub fn parse(given: &str) -> (r: Self)
        ensures
            r@ == spec_of(given@),
    {
        let chars = text::chars_of(given);
        let trimmed = text::string_of(text::trim(&chars));
        if let Ok(range) = Range::parse(trimmed.as_str()) {
            return Spec::Range(range);
        }
        let letters = text::chars_of(trimmed.as_str());
        let mut i: usize = 0;
        while i < letters.len()
            invariant
                i <= letters@.len(),
                letters@ == trimmed@,
                trimmed@ == text::trimmed(given@),
                semver::range_of(trimmed@) is None,
                forall|j: int| 0 <= j < i ==> is_tag_char(#[trigger] trimmed@[j]),
            decreases letters@.len() - i,
        {
            let c = letters[i];
            let ok = ('0' <= c && c <= '9') || ('a' <= c && c <= 'z') || ('A' <= c && c <= 'Z')
                || c == '-' || c == '_' || c == '.';
            if !ok {
                assert(!is_tag_char(trimmed@[i as int]));
                return Spec::Unsupported(trimmed);
            }
            i += 1;
        }
        if letters.len() > 0 {
            Spec::Tag(trimmed)
        } else {
            Spec::Unsupported(trimmed)
        }
    }

    /// The specifier as it is written.
    pub fn to_string(&self) -> (r: String)
        ensures
            r@ == spec_text(self@),
    {
        match self {
            Spec::Range(range) => range.to_string(),
            Spec::Tag(tag) => tag.clone(),
            Spec::Unsupported(given) => given.clone(),
        }
    }
}

// ---------------------------------------------------------------------------
// Requirements.

/// One declared dependency.
#[derive(PartialEq, Eq, Debug)]
pub struct Requirement {
    pub name: String,
    pub spec: Spec,
    pub class: DependencyClass,
}

/// What a `Requirement` stands for.
#[verifier::ext_equal]
pub struct RequirementModel {
    pub name: Seq<char>,
    pub spec: SpecModel,
    pub class: DependencyClass,
}

impl View for Requirement {
    type V = RequirementModel;

    open spec fn view(&self) -> RequirementModel {
        RequirementModel { name: self.name@, spec: self.spec@, class: self.class }
    }
}

impl Clone for Requirement {
    fn clone(&self) -> (r: Self)
        ensures
            r@ == self@,
    {
        Requirement { name: self.name.clone(), spec: self.spec.clone(), class: self.class }
    }
}

impl Rank for RequirementModel {
    open spec fn rank(self) -> Seq<int> {
        class_and_name_rank(self.class, self.name)
    }
}

impl Ranked for Requirement {
    fn compare(&self, other: &Self) -> (r: Order) {
        compare_class_and_name(
            self.class,
            self.name.as_str(),
            other.class,
            other.name.as_str(),
        )
    }
}

/// The requirements that a list of them stands for.
pub open spec fn requirements(list: Seq<Requirement>) -> Seq<RequirementModel> {
    sorted::list_views(list)
}

/// The part of a manifest that is of use here.
#[derive(PartialEq, Eq, Debug)]
pub struct Manifest {
    pub name: Option<String>,
    pub version: Option<Version>,
    /// In the order of class and name.
    pub requirements: Vec<Requirement>,
    /// `bin` entries, normalized to a map of command name to relative path.
    pub bin: SortedMap<String, String>,
}

/// What a `Manifest` stands for.
#[verifier::ext_equal]
pub struct ManifestModel {
    pub name: Option<Seq<char>>,
    pub version: Option<VersionModel>,
    pub requirements: Seq<RequirementModel>,
    pub bin: Seq<(Seq<char>, Seq<char>)>,
}

impl View for Manifest {
    type V = ManifestModel;

    open spec fn view(&self) -> ManifestModel {
        ManifestModel {
            name: text::view_of(self.name),
            version: text::view_of(self.version),
            requirements: requirements(self.requirements@),
            bin: self.bin@,
        }
    }
}

fn copy_requirements(list: &Vec<Requirement>) -> (out: Vec<Requirement>)
    ensures
        requirements(out@) == requirements(list@),
{
    let mut out: Vec<Requirement> = Vec::new();
    let mut i: usize = 0;
    let ghost all = requirements(list@);
    while i < list.len()
        invariant
            i <= list@.len(),
            all == requirements(list@),
            requirements(out@) == all.take(i as int),
        decreases list@.len() - i,
    {
        let ghost done = out@;
        let copy = list[i].clone();
        out.push(copy);
        assert(requirements(out@) =~= requirements(done).push(copy@));
        assert(all.take(i + 1) =~= all.take(i as int).push(copy@));
        i += 1;
    }
    assert(all.take(i as int) =~= all);
    out
}

impl Clone for Manifest {
    fn clone(&self) -> (r: Self)
        ensures
            r@ == self@,
    {
        Manifest {
            name: match &self.name {
                Some(name) => Some(name.clone()),
                None => None,
            },
            version: match &self.version {
                Some(version) => Some(version.clone()),
                None => None,
            },
            requirements: copy_requirements(&self.requirements),
            bin: self.bin.copy_texts(),
        }
    }
}

impl Default for Manifest {
    fn default() -> (r: Self)
        ensures
            r@ == (ManifestModel {
                name: None,
                version: None,
                requirements: Seq::empty(),
                bin: Seq::empty(),
            }),
    {
        let r = Manifest {
            name: None,
            version: None,
            requirements: Vec::new(),
            bin: SortedMap::new(),
        };
        assert(r@.requirements =~= Seq::empty());
        r
    }
}

/// Whether the manifest marks a peer dependency as optional.
pub open spec fn is_optional_peer(value: JsonModel, name: Seq<char>) -> bool {
    let meta = json::object_field(value, "peerDependenciesMeta"@);
    exists|i: int|
        0 <= i < meta.len() && (#[trigger] meta[i]).0 == name && json::field(
            meta[i].1,
            "optional"@,
        ) == Some(JsonModel::Bool(true))
}

/// The class of a dependency that was declared under a field of a class.
pub open spec fn declared_class(
    value: JsonModel,
    class: DependencyClass,
    name: Seq<char>,
) -> DependencyClass {
    if class == DependencyClass::Peer && is_optional_peer(value, name) {
        DependencyClass::OptionalPeer
    } else {
        class
    }
}

/// The requirements among the entries of one field: those whose specifier is a
/// text.
pub open spec fn declared(
    value: JsonModel,
    class: DependencyClass,
    entries: Seq<(Seq<char>, JsonModel)>,
) -> Seq<RequirementModel>
    decreases entries.len(),
{
    if entries.len() == 0 {
        Seq::empty()
    } else {
        let front = declared(value, class, entries.drop_last());
        let (name, spec) = entries.last();
        match spec {
            JsonModel::Text(spec) => front.push(
                RequirementModel {
                    name,
                    spec: spec_of(spec),
                    class: declared_class(value, class, name),
                },
            ),
            _ => front,
        }
    }
}

/// All declared requirements, field by field.
pub open spec fn all_declared(value: JsonModel) -> Seq<RequirementModel> {
    declared(value, DependencyClass::Runtime, json::object_field(value, "dependencies"@))
        + declared(
        value,
        DependencyClass::Development,
        json::object_field(value, "devDependencies"@),
    ) + declared(
        value,
        DependencyClass::Optional,
        json::object_field(value, "optionalDependencies"@),
    ) + declared(value, DependencyClass::Peer, json::object_field(value, "peerDependencies"@))
}

/// The commands among the entries of `bin`: those whose path is a text.
pub open spec fn bin_entries(entries: Seq<(Seq<char>, JsonModel)>) -> Seq<(Seq<char>, Seq<char>)>
    decreases entries.len(),
{
    if entries.len() == 0 {
        Seq::empty()
    } else {
        let front = bin_entries(entries.drop_last());
        match entries.last().1 {
            JsonModel::Text(path) => sorted::put(front, entries.last().0, path),
            _ => front,
        }
    }
}

/// `bin` is either a text (one command, named after the package without its
/// scope) or an object.
pub open spec fn bin_of(value: JsonModel) -> Seq<(Seq<char>, Seq<char>)> {
    match json::field(value, "bin"@) {
        Some(JsonModel::Text(path)) => match json::text_field(value, "name"@) {
            Some(name) => seq![(text::pieces(name, '/').last(), path)],
            None => Seq::empty(),
        },
        Some(JsonModel::Object(entries)) => bin_entries(entries),
        _ => Seq::empty(),
    }
}

/// The manifest that a value holds. Whatever has an unexpected shape is left
/// out.
pub open spec fn manifest_of(value: JsonModel) -> ManifestModel {
    ManifestModel {
        name: json::text_field(value, "name"@),
        version: match json::text_field(value, "version"@) {
            Some(version) => semver::version_of(version),
            None => None,
        },
        requirements: sorted::stable_sorted(all_declared(value)),
        bin: bin_of(value),
    }
}

/// Whether an install should fetch a requirement: runtime always, dev only for
/// the project's own manifest, optional best-effort, peers never.
pub open spec fn is_wanted(r: RequirementModel, include_development: bool) -> bool {
    ||| r.class == DependencyClass::Runtime
    ||| r.class == DependencyClass::Optional
    ||| include_development && r.class == DependencyClass::Development
}

/// The requirements that an install should fetch, in their order.
pub open spec fn wanted(
    list: Seq<RequirementModel>,
    include_development: bool,
) -> Seq<RequirementModel>
    decreases list.len(),
{
    if list.len() == 0 {
        Seq::empty()
    } else {
        let front = wanted(list.drop_last(), include_development);
        if is_wanted(list.last(), include_development) {
            front.push(list.last())
        } else {
            front
        }
    }
}

/// The class of the first requirement with a name.
pub open spec fn class_named(list: Seq<RequirementModel>, name: Seq<char>) -> Option<
    DependencyClass,
>
    decreases list.len(),
{
    if list.len() == 0 {
        None
    } else if list[0].name == name {
        Some(list[0].class)
    } else {
        class_named(list.skip(1), name)
    }
}

fn optional_peer(value: &Json, name: &str) -> (r: bool)
    ensures
        r == is_optional_peer(value@, name@),
{
    match value.get_object("peerDependenciesMeta") {
        Some(entries) => {
            let ghost meta = json::object_field(value@, "peerDependenciesMeta"@);
            let mut i: usize = 0;
            while i < entries.len()
                invariant
                    i <= entries@.len(),
                    meta == json::entry_models(entries@),
                    meta == json::object_field(value@, "peerDependenciesMeta"@),
                    forall|j: int|
                        0 <= j < i ==> !((#[trigger] meta[j]).0 == name@ && json::field(
                            meta[j].1,
                            "optional"@,
                        ) == Some(JsonModel::Bool(true))),
                decreases entries@.len() - i,
            {
                assert(meta[i as int] == (entries@[i as int].0@, entries@[i as int].1@));
                if text::same_text(entries[i].0.as_str(), name) {
                    if let Some(Json::Bool(true)) = entries[i].1.get("optional") {
                        return true;
                    }
                }
                i += 1;
            }
            false
        },
        None => false,
    }
}

/// Adds the requirements that one field declares.
fn declare(value: &Json, field: &str, class: DependencyClass, out: &mut Vec<Requirement>)
    ensures
        requirements(final(out)@) == requirements(old(out)@) + declared(
            value@,
            class,
            json::object_field(value@, field@),
        ),
{
    let ghost before = requirements(out@);
    match value.get_object(field) {
        Some(entries) => {
            let ghost all = json::entry_models(entries@);
            let mut i: usize = 0;
            assert(before + declared(value@, class, all.take(0)) =~= before);
            while i < entries.len()
                invariant
                    i <= entries@.len(),
                    all == json::entry_models(entries@),
                    requirements(out@) == before + declared(value@, class, all.take(i as int)),
                decreases entries@.len() - i,
            {
                let ghost done = requirements(out@);
                proof {
                    assert(all.take(i + 1).drop_last() =~= all.take(i as int));
                    assert(all.take(i + 1).last() == (
                        entries@[i as int].0@,
                        entries@[i as int].1@,
                    ));
                }
                let name = &entries[i].0;
                if let Some(spec) = entries[i].1.as_text() {
                    let found = if class == DependencyClass::Peer && optional_peer(
                        value,
                        name.as_str(),
                    ) {
                        DependencyClass::OptionalPeer
                    } else {
                        class
                    };
                    let one = Requirement {
                        name: name.clone(),
                        spec: Spec::parse(spec.as_str()),
                        class: found,
                    };
                    out.push(one);
                    assert(requirements(out@) =~= done.push(one@));
                    assert(before + declared(value@, class, all.take(i as int)).push(one@) =~= (
                    before + declared(value@, class, all.take(i as int))).push(one@));
                }
                i += 1;
            }
            assert(all.take(i as int) =~= all);
        },
        None => {
            assert(before + Seq::empty() =~= before);
        },
    }
}

/// Reads `bin`.
pub fn read_bin(value: &Json) -> (r: SortedMap<String, String>)
    ensures
        r@ == bin_of(value@),
{
    let mut bin: SortedMap<String, String> = SortedMap::new();
    match value.get("bin") {
        Some(Json::Text(path)) => {
            if let Some(name) = value.get_text("name") {
                let chars = text::chars_of(name.as_str());
                let pieces = text::split(&chars, '/');
                let command = text::string_of(pieces[pieces.len() - 1]);
                proof {
                    assert(text::pieces(name@, '/').last() == command@);
                    sorted::lemma_put_last(
                        Seq::<(Seq<char>, Seq<char>)>::empty(),
                        command@,
                        path@,
                    );
                }
                let ghost (c, p) = (command@, path@);
                bin.insert(command, path.clone());
                assert(bin@ =~= seq![(c, p)]);
            }
        },
        Some(found) => {
            if let Some(entries) = found.as_object() {
                let ghost all = json::entry_models(entries@);
                let mut i: usize = 0;
                assert(bin_entries(all.take(0)) =~= Seq::empty());
                while i < entries.len()
                    invariant
                        i <= entries@.len(),
                        all == json::entry_models(entries@),
                        bin@ == bin_entries(all.take(i as int)),
                    decreases entries@.len() - i,
                {
                    proof {
                        assert(all.take(i + 1).drop_last() =~= all.take(i as int));
                        assert(all.take(i + 1).last() == (
                            entries@[i as int].0@,
                            entries@[i as int].1@,
                        ));
                    }
                    if let Some(path) = entries[i].1.as_text() {
                        bin.insert(entries[i].0.clone(), path.clone());
                    }
                    i += 1;
                }
                assert(all.take(i as int) =~= all);
            }
        },
        None => {},
    }
    bin
}

impl Manifest {
    /// Reads a manifest from the text of its file.
    pub fn parse(path: &str, document: &str) -> (r: Result<Self, ManifestError>)
        ensures
            match r {
                Ok(manifest) => json::json_in_text(document@) matches Ok(value) && manifest@
                    == manifest_of(value),
                Err(ManifestError::Json { path: at, message }) => json::json_in_text(document@)
                    == Err::<JsonModel, Seq<char>>(message@) && at@ == path@,
                Err(_) => false,
            },
    {
        match json::parse_text(document) {
            Ok(value) => Ok(Self::from_value(&value)),
            Err(message) => Err(ManifestError::Json { path: path.to_string(), message }),
        }
    }

    /// Reads what a value holds of a manifest.
    pub fn from_value(value: &Json) -> (r: Self)
        ensures
            r@ == manifest_of(value@),
    {
        let name = match value.get_text("name") {
            Some(name) => Some(name.clone()),
            None => None,
        };
        let version = match value.get_text("version") {
            Some(given) => match Version::parse(given.as_str()) {
                Ok(version) => Some(version),
                Err(_) => None,
            },
            None => None,
        };
        let mut list: Vec<Requirement> = Vec::new();
        assert(requirements(list@) =~= Seq::empty());
        declare(value, "dependencies", DependencyClass::Runtime, &mut list);
        declare(value, "devDependencies", DependencyClass::Development, &mut list);
        declare(value, "optionalDependencies", DependencyClass::Optional, &mut list);
        declare(value, "peerDependencies", DependencyClass::Peer, &mut list);
        assert(requirements(list@) =~= all_declared(value@));
        Manifest { name, version, requirements: sorted::sort(list), bin: read_bin(value) }
    }

    /// Requirements that an install should fetch: runtime always, dev only for
    /// the project's own manifest, optional best-effort. Peers are never
    /// installed.
    pub fn installable(&self, include_development: bool) -> (r: Vec<&Requirement>)
        ensures
            r@.map_values(|q: &Requirement| q@) == wanted(
                self@.requirements,
                include_development,
            ),
    {
        let ghost all = self@.requirements;
        let mut out: Vec<&Requirement> = Vec::new();
        let mut i: usize = 0;
        assert(out@.map_values(|q: &Requirement| q@) =~= Seq::empty());
        while i < self.requirements.len()
            invariant
                i <= self.requirements@.len(),
                all == requirements(self.requirements@),
                out@.map_values(|q: &Requirement| q@) == wanted(
                    all.take(i as int),
                    include_development,
                ),
            decreases self.requirements@.len() - i,
        {
            let one = &self.requirements[i];
            let ghost done = out@.map_values(|q: &Requirement| q@);
            proof {
                assert(all.take(i + 1).drop_last() =~= all.take(i as int));
                assert(all.take(i + 1).last() == one@);
            }
            if one.class == DependencyClass::Runtime || one.class == DependencyClass::Optional || (
            include_development && one.class == DependencyClass::Development) {
                out.push(one);
                assert(out@.map_values(|q: &Requirement| q@) =~= done.push(one@));
            }
            i += 1;
        }
        assert(all.take(i as int) =~= all);
        out
    }

    /// How a dependency is declared; of several declarations, the first.
    pub fn class_of(&self, name: &str) -> (r: Option<DependencyClass>)
        ensures
            r == class_named(self@.requirements, name@),
    {
        let ghost all = self@.requirements;
        let mut i: usize = 0;
        assert(all.skip(0) =~= all);
        while i < self.requirements.len()
            invariant
                i <= self.requirements@.len(),
                all == requirements(self.requirements@),
                class_named(all, name@) == class_named(all.skip(i as int), name@),
            decreases self.requirements@.len() - i,
        {
            assert(all.skip(i as int)[0] == self.requirements@[i as int]@);
            if text::same_text(self.requirements[i].name.as_str(), name) {
                return Some(self.requirements[i].class);
            }
            assert(all.skip(i as int).skip(1) =~= all.skip(i + 1));
            i += 1;
        }
        None
    }
}

/// A manifest lists its requirements in the order of class and name, each
/// declared one once.
pub proof fn requirements_are_sorted(value: JsonModel)
    ensures
        sorted::in_order(manifest_of(value).requirements),
        manifest_of(value).requirements.to_multiset() == all_declared(value).to_multiset(),
{
    sorted::sorting_orders_and_keeps(all_declared(value));
}

/// Which requirements an install fetches, by class.
pub open spec fn fetched(include_development: bool) -> spec_fn(RequirementModel) -> bool {
    |r: RequirementModel|
        match r.class {
            DependencyClass::Runtime => true,
            DependencyClass::Optional => true,
            DependencyClass::Development => include_development,
            DependencyClass::Peer => false,
            DependencyClass::OptionalPeer => false,
        }
}

/// An install fetches what is declared as a dependency or an optional dependency, of the
/// project itself also what is declared for development, and never a peer; in the order
/// in which it is listed.
pub proof fn installs_fetch_by_class(list: Seq<RequirementModel>, include_development: bool)
    ensures
        wanted(list, include_development) == list.filter(fetched(include_development)),
    decreases list.len(),
{
    reveal(Seq::filter);
    if list.len() > 0 {
        installs_fetch_by_class(list.drop_last(), include_development);
    }
}

proof fn lemma_declared(
    value: JsonModel,
    class: DependencyClass,
    entries: Seq<(Seq<char>, JsonModel)>,
    r: RequirementModel,
)
    ensures
        declared(value, class, entries).contains(r) <==> r.class == declared_class(
            value,
            class,
            r.name,
        ) && exists|i: int, spec: Seq<char>|
            0 <= i < entries.len() && #[trigger] entries[i] == (r.name, JsonModel::Text(spec))
                && r.spec == #[trigger] spec_of(spec),
    decreases entries.len(),
{
    let all = declared(value, class, entries);
    if entries.len() > 0 {
        let front = entries.drop_last();
        let before = declared(value, class, front);
        let last = entries.len() - 1;
        lemma_declared(value, class, front, r);
        assert(entries[last] == entries.last());
        if all.contains(r) {
            let k = choose|k: int| 0 <= k < all.len() && all[k] == r;
            if k < before.len() {
                assert(before[k] == r);
                assert(before.contains(r));
                let (i, spec) = choose|i: int, spec: Seq<char>|
                    0 <= i < front.len() && #[trigger] front[i] == (r.name, JsonModel::Text(spec))
                        && r.spec == #[trigger] spec_of(spec);
                assert(entries[i] == (r.name, JsonModel::Text(spec)));
            } else {
                let spec = entries.last().1->Text_0;
                assert(entries[last] == (r.name, JsonModel::Text(spec)));
                assert(r.spec == spec_of(spec));
            }
        }
        if r.class == declared_class(value, class, r.name) && exists|i: int, spec: Seq<char>|
            0 <= i < entries.len() && #[trigger] entries[i] == (r.name, JsonModel::Text(spec))
                && r.spec == #[trigger] spec_of(spec) {
            let (i, spec) = choose|i: int, spec: Seq<char>|
                0 <= i < entries.len() && #[trigger] entries[i] == (r.name, JsonModel::Text(spec))
                    && r.spec == #[trigger] spec_of(spec);
            if i < last {
                assert(front[i] == (r.name, JsonModel::Text(spec)));
                assert(before.contains(r));
                let k = choose|k: int| 0 <= k < before.len() && before[k] == r;
                assert(all[k] == r);
            } else {
                assert(all[all.len() - 1] == r);
            }
        }
    }
}

/// Whether a field of a manifest has an entry of a name, with a text.
pub open spec fn lists(
    value: JsonModel,
    field: Seq<char>,
    name: Seq<char>,
    spec: Seq<char>,
) -> bool {
    value matches JsonModel::Object(fields) && exists|i: int, j: int|
        0 <= i < fields.len() && fields[i].0 == field && fields[i].1 is Object && 0 <= j
            < fields[i].1->Object_0.len() && #[trigger] fields[i].1->Object_0[j] == (
            name,
            JsonModel::Text(spec),
        )
}

/// Whether no field of a value occurs twice.
pub open spec fn has_distinct_fields(value: JsonModel) -> bool {
    value matches JsonModel::Object(fields) ==> forall|i: int, j: int|
        0 <= i < j < fields.len() ==> (#[trigger] fields[i]).0 != (#[trigger] fields[j]).0
}

proof fn lemma_lists(value: JsonModel, field: Seq<char>, name: Seq<char>)
    requires
        has_distinct_fields(value),
    ensures
        forall|spec: Seq<char>| #[trigger]
            lists(value, field, name, spec) <==> json::object_field(value, field).contains(
                (name, JsonModel::Text(spec)),
            ),
{
    json::fields_are_entries(value, field);
    assert forall|spec: Seq<char>| #[trigger] lists(value, field, name, spec)
        <==> json::object_field(value, field).contains((name, JsonModel::Text(spec))) by {
        let entries = json::object_field(value, field);
        let wanted = (name, JsonModel::Text(spec));
        if lists(value, field, name, spec) {
            let fields = value->Object_0;
            let (i, j) = choose|i: int, j: int|
                0 <= i < fields.len() && fields[i].0 == field && fields[i].1 is Object && 0 <= j
                    < fields[i].1->Object_0.len() && #[trigger] fields[i].1->Object_0[j] == wanted;
            assert(json::field(value, field) is Some);
            let k = choose|k: int|
                0 <= k < fields.len() && #[trigger] fields[k] == (
                    field,
                    json::field(value, field)->0,
                );
            assert(fields[k].0 == field);
            assert(i == k);
            assert(entries == fields[i].1->Object_0);
            assert(entries[j] == wanted);
        }
        if entries.contains(wanted) {
            let j = choose|j: int| 0 <= j < entries.len() && entries[j] == wanted;
            let fields = value->Object_0;
            let k = choose|k: int|
                0 <= k < fields.len() && #[trigger] fields[k] == (
                    field,
                    json::field(value, field)->0,
                );
            assert(fields[k].0 == field && fields[k].1->Object_0[j] == wanted);
        }
    }
}

/// What a manifest requires is what its fields list, each under the class of its field:
/// `dependencies`, `devDependencies`, `optionalDependencies` and `peerDependencies`, of
/// which those that `peerDependenciesMeta` marks as optional are of a class of their own.
pub proof fn fields_are_classes(value: JsonModel, r: RequirementModel)
    requires
        has_distinct_fields(value),
    ensures
        manifest_of(value).requirements.contains(r) <==> exists|spec: Seq<char>|
            r.spec == #[trigger] spec_of(spec) && match r.class {
                DependencyClass::Runtime => lists(value, "dependencies"@, r.name, spec),
                DependencyClass::Development => lists(value, "devDependencies"@, r.name, spec),
                DependencyClass::Optional => lists(value, "optionalDependencies"@, r.name, spec),
                DependencyClass::Peer => lists(value, "peerDependencies"@, r.name, spec)
                    && !is_optional_peer(value, r.name),
                DependencyClass::OptionalPeer => lists(value, "peerDependencies"@, r.name, spec)
                    && is_optional_peer(value, r.name),
            },
{
    broadcast use vstd::seq_lib::group_to_multiset_ensures;

    let list = manifest_of(value).requirements;
    let all = all_declared(value);
    requirements_are_sorted(value);
    assert(list.contains(r) <==> all.contains(r)) by {
        assert(list.contains(r) <==> list.to_multiset().count(r) > 0);
        assert(all.contains(r) <==> all.to_multiset().count(r) > 0);
    }
    lemma_all_declared(value, r);
    lemma_lists(value, "dependencies"@, r.name);
    lemma_lists(value, "devDependencies"@, r.name);
    lemma_lists(value, "optionalDependencies"@, r.name);
    lemma_lists(value, "peerDependencies"@, r.name);
    lemma_in_field(value, DependencyClass::Runtime, "dependencies"@, r);
    lemma_in_field(value, DependencyClass::Development, "devDependencies"@, r);
    lemma_in_field(value, DependencyClass::Optional, "optionalDependencies"@, r);
    lemma_in_field(value, DependencyClass::Peer, "peerDependencies"@, r);
}

proof fn lemma_in_field(
    value: JsonModel,
    class: DependencyClass,
    field: Seq<char>,
    r: RequirementModel,
)
    ensures
        declared(value, class, json::object_field(value, field)).contains(r) <==> r.class
            == declared_class(value, class, r.name) && exists|spec: Seq<char>|
            r.spec == #[trigger] spec_of(spec) && json::object_field(value, field).contains(
                (r.name, JsonModel::Text(spec)),
            ),
{
    let entries = json::object_field(value, field);
    lemma_declared(value, class, entries, r);
    if exists|i: int, spec: Seq<char>|
        0 <= i < entries.len() && #[trigger] entries[i] == (r.name, JsonModel::Text(spec)) && r.spec
            == #[trigger] spec_of(spec) {
        let (i, spec) = choose|i: int, spec: Seq<char>|
            0 <= i < entries.len() && #[trigger] entries[i] == (r.name, JsonModel::Text(spec))
                && r.spec == #[trigger] spec_of(spec);
        assert(entries.contains((r.name, JsonModel::Text(spec))));
    }
    if exists|spec: Seq<char>|
        r.spec == #[trigger] spec_of(spec) && entries.contains((r.name, JsonModel::Text(spec))) {
        let spec = choose|spec: Seq<char>|
            r.spec == #[trigger] spec_of(spec) && entries.contains((r.name, JsonModel::Text(spec)));
        let i = choose|i: int|
            0 <= i < entries.len() && entries[i] == (r.name, JsonModel::Text(spec));
        assert(entries[i] == (r.name, JsonModel::Text(spec)));
    }
}

proof fn lemma_all_declared(value: JsonModel, r: RequirementModel)
    ensures
        ({
            let a = json::object_field(value, "dependencies"@);
            let b = json::object_field(value, "devDependencies"@);
            let c = json::object_field(value, "optionalDependencies"@);
            let d = json::object_field(value, "peerDependencies"@);
            all_declared(value).contains(r) <==> declared(
                value,
                DependencyClass::Runtime,
                a,
            ).contains(r) || declared(value, DependencyClass::Development, b).contains(r)
                || declared(value, DependencyClass::Optional, c).contains(r) || declared(
                value,
                DependencyClass::Peer,
                d,
            ).contains(r)
        }),
{
    let a = declared(
        value,
        DependencyClass::Runtime,
        json::object_field(value, "dependencies"@),
    );
    let b = declared(
        value,
        DependencyClass::Development,
        json::object_field(value, "devDependencies"@),
    );
    let c = declared(
        value,
        DependencyClass::Optional,
        json::object_field(value, "optionalDependencies"@),
    );
    let d = declared(value, DependencyClass::Peer, json::object_field(value, "peerDependencies"@));
    lemma_either(a, b, r);
    lemma_either(a + b, c, r);
    lemma_either(a + b + c, d, r);
}

proof fn lemma_either(a: Seq<RequirementModel>, b: Seq<RequirementModel>, r: RequirementModel)
    ensures
        (a + b).contains(r) <==> a.contains(r) || b.contains(r),
{
    let all = a + b;
    if all.contains(r) {
        let k = choose|k: int| 0 <= k < all.len() && all[k] == r;
        if k < a.len() {
            assert(a[k] == r);
        } else {
            assert(b[k - a.len()] == r);
        }
    }
    if a.contains(r) {
        let k = choose|k: int| 0 <= k < a.len() && a[k] == r;
        assert(all[k] == r);
    }
    if b.contains(r) {
        let k = choose|k: int| 0 <= k < b.len() && b[k] == r;
        assert(all[a.len() + k] == r);
    }
}

// ---------------------------------------------------------------------------
// Commands.

/// Where `bin` is a text, the package has one command, which is named after the package:
/// after what follows the scope, where the name has one.
pub proof fn single_commands_are_named_after_packages(
    value: JsonModel,
    path: Seq<char>,
    scope: Seq<char>,
    name: Seq<char>,
)
    requires
        json::says(value, "bin"@, JsonModel::Text(path)),
        !name.contains('/'),
        !scope.contains('/'),
    ensures
        json::says(value, "name"@, JsonModel::Text(name)) || json::says(
            value,
            "name"@,
            JsonModel::Text(scope + seq!['/'] + name),
        ) ==> manifest_of(value).bin == seq![(name, path)],
        json::is_silent(value, "name"@) ==> manifest_of(value).bin.len() == 0,
{
    json::fields_are_entries(value, "bin"@);
    json::fields_are_entries(value, "name"@);
    text::lemma_pieces_step(scope, name, '/');
    text::lemma_pieces_whole(name, '/');
    assert((seq![scope] + seq![name]).last() == name);
}

/// The commands of `bin` are in order.
pub proof fn lemma_bin_ascending(entries: Seq<(Seq<char>, JsonModel)>)
    ensures
        sorted::ascending(bin_entries(entries)),
    decreases entries.len(),
{
    if entries.len() > 0 {
        lemma_bin_ascending(entries.drop_last());
        if let JsonModel::Text(path) = entries.last().1 {
            sorted::lemma_put_ascending(bin_entries(entries.drop_last()), entries.last().0, path);
        }
    }
}

proof fn lemma_bin(entries: Seq<(Seq<char>, JsonModel)>, i: int, path: Seq<char>)
    requires
        0 <= i < entries.len(),
        entries[i].1 == JsonModel::Text(path),
        forall|j: int| i < j < entries.len() ==> (#[trigger] entries[j]).0 != entries[i].0,
    ensures
        sorted::lookup(bin_entries(entries), entries[i].0) == Some(path),
    decreases entries.len(),
{
    let front = entries.drop_last();
    lemma_bin_ascending(front);
    assert(entries.last() == entries[entries.len() - 1]);
    if i < front.len() {
        assert(front[i] == entries[i]);
        assert forall|j: int| i < j < front.len() implies (#[trigger] front[j]).0
            != front[i].0 by {
            assert(front[j] == entries[j]);
        }
        lemma_bin(front, i, path);
        assert(entries[entries.len() - 1].0 != entries[i].0);
        order::lemma_text_rank_injective(entries.last().0, entries[i].0);
    }
    if let JsonModel::Text(last) = entries.last().1 {
        sorted::lemma_put_lookup(bin_entries(front), entries.last().0, last, entries[i].0);
    }
}

/// Where `bin` is an object, each of its entries is a command with the path it has,
/// unless a later one has the same name.
pub proof fn listed_commands_are_found(
    value: JsonModel,
    entries: Seq<(Seq<char>, JsonModel)>,
    i: int,
    path: Seq<char>,
)
    requires
        json::says(value, "bin"@, JsonModel::Object(entries)),
        0 <= i < entries.len(),
        entries[i].1 == JsonModel::Text(path),
        forall|j: int| i < j < entries.len() ==> (#[trigger] entries[j]).0 != entries[i].0,
    ensures
        sorted::lookup(manifest_of(value).bin, entries[i].0) == Some(path),
{
    json::fields_are_entries(value, "bin"@);
    lemma_bin(entries, i, path);
}

// ---------------------------------------------------------------------------
// Specifiers.

/// What a specifier means goes by its text without the white space around it: a range
/// where it reads as one; else a tag, unless it is empty or has a character in it that no
/// tag has, such as those of URLs and paths.
pub proof fn specifiers_are_ranges_or_tags(given: Seq<char>, k: int)
    ensures
        ({
            let s = text::trimmed(given);
            match semver::range_of(s) {
                Some(range) => spec_of(given) == SpecModel::Range(range),
                None => {
                    &&& 0 <= k < s.len() && (s[k] == ':' || s[k] == '/' || s[k] == '@' || s[k] == '#'
                        || s[k] == '+' || s[k] == '%') ==> spec_of(given)
                        == SpecModel::Unsupported(s)
                    &&& s.len() > 0 && (forall|i: int|
                        0 <= i < s.len() ==> 'a' <= #[trigger] s[i] <= 'z' || 'A' <= s[i] <= 'Z'
                            || '0' <= s[i] <= '9' || s[i] == '-' || s[i] == '_' || s[i] == '.')
                        ==> spec_of(given) == SpecModel::Tag(s)
                },
            }
        }),
{
    let s = text::trimmed(given);
    if semver::range_of(s) is None {
        if 0 <= k < s.len() && (s[k] == ':' || s[k] == '/' || s[k] == '@' || s[k] == '#' || s[k]
            == '+' || s[k] == '%') {
            assert(!is_tag_char(s[k]));
        }
        if s.len() > 0 && (forall|i: int|
            0 <= i < s.len() ==> 'a' <= #[trigger] s[i] <= 'z' || 'A' <= s[i] <= 'Z' || '0' <= s[i]
                <= '9' || s[i] == '-' || s[i] == '_' || s[i] == '.') {
            assert forall|i: int| 0 <= i < s.len() implies is_tag_char(#[trigger] s[i]) by {}
        }
    }
}

} // verus!
