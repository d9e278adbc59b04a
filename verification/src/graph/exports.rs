//! Bare specifiers and the `exports` map of a package.
//!
//! Supported of Node's `exports`: string sugar, condition objects (in
//! declaration order), subpath maps, one `*` pattern per key, arrays as fallback
//! lists, and `null` as an explicit block. Not supported: `imports` and `#`
//! specifiers.

use vstd::prelude::*;
use crate::json::{Json, JsonModel};
use crate::{json, text};

verus! {

// ---------------------------------------------------------------------------
// Specifiers.

/// Node builtins that are recognized without a `node:` prefix. Anything prefixed
/// `node:` is taken for a builtin regardless, which is how new ones arrive.
pub open spec fn is_builtin_name(s: Seq<char>) -> bool {
    ||| s == "assert"@
    ||| s == "async_hooks"@
    ||| s == "buffer"@
    ||| s == "child_process"@
    ||| s == "cluster"@
    ||| s == "console"@
    ||| s == "constants"@
    ||| s == "crypto"@
    ||| s == "dgram"@
    ||| s == "diagnostics_channel"@
    ||| s == "dns"@
    ||| s == "domain"@
    ||| s == "events"@
    ||| s == "fs"@
    ||| s == "http"@
    ||| s == "http2"@
    ||| s == "https"@
    ||| s == "inspector"@
    ||| s == "module"@
    ||| s == "net"@
    ||| s == "os"@
    ||| s == "path"@
    ||| s == "perf_hooks"@
    ||| s == "process"@
    ||| s == "punycode"@
    ||| s == "querystring"@
    ||| s == "readline"@
    ||| s == "repl"@
    ||| s == "stream"@
    ||| s == "string_decoder"@
    ||| s == "sys"@
    ||| s == "timers"@
    ||| s == "tls"@
    ||| s == "trace_events"@
    ||| s == "tty"@
    ||| s == "url"@
    ||| s == "util"@
    ||| s == "v8"@
    ||| s == "vm"@
    ||| s == "wasi"@
    ||| s == "worker_threads"@
    ||| s == "zlib"@
}

/// What stands before the first `/`.
pub open spec fn head_of(s: Seq<char>) -> Seq<char> {
    s.take(text::first_index(s, '/') as int)
}

/// Whether a specifier names a builtin, or something below one.
pub fn is_builtin(specifier: &str) -> (r: bool)
    ensures
        r == is_builtin_name(head_of(specifier@)),
{
    let chars = text::chars_of(specifier);
    let head = text::before(&chars, text::index_of(&chars, '/'));
    text::spells(head, "assert") || text::spells(head, "async_hooks") || text::spells(
        head,
        "buffer",
    ) || text::spells(head, "child_process") || text::spells(head, "cluster") || text::spells(
        head,
        "console",
    ) || text::spells(head, "constants") || text::spells(head, "crypto") || text::spells(
        head,
        "dgram",
    ) || text::spells(head, "diagnostics_channel") || text::spells(head, "dns") || text::spells(
        head,
        "domain",
    ) || text::spells(head, "events") || text::spells(head, "fs") || text::spells(head, "http")
        || text::spells(head, "http2") || text::spells(head, "https") || text::spells(
        head,
        "inspector",
    ) || text::spells(head, "module") || text::spells(head, "net") || text::spells(head, "os")
        || text::spells(head, "path") || text::spells(head, "perf_hooks") || text::spells(
        head,
        "process",
    ) || text::spells(head, "punycode") || text::spells(head, "querystring") || text::spells(
        head,
        "readline",
    ) || text::spells(head, "repl") || text::spells(head, "stream") || text::spells(
        head,
        "string_decoder",
    ) || text::spells(head, "sys") || text::spells(head, "timers") || text::spells(head, "tls")
        || text::spells(head, "trace_events") || text::spells(head, "tty") || text::spells(
        head,
        "url",
    ) || text::spells(head, "util") || text::spells(head, "v8") || text::spells(head, "vm")
        || text::spells(head, "wasi") || text::spells(head, "worker_threads") || text::spells(
        head,
        "zlib",
    )
}

/// What a specifier asks of its package: the package itself, or a file in it.
pub open spec fn subpath_of(rest: Seq<char>) -> Seq<char> {
    if rest.len() > 0 {
        "./"@ + rest
    } else {
        "."@
    }
}

/// The package that a bare specifier names, and what it asks of it.
pub open spec fn bare_parts(s: Seq<char>) -> (Seq<char>, Seq<char>) {
    match text::halves(s, '/') {
        None => (s, "."@),
        Some((first, rest)) => if s[0] != '@' {
            (first, subpath_of(rest))
        } else {
            match text::halves(rest, '/') {
                None => (first + "/"@ + rest, "."@),
                Some((second, more)) => (first + "/"@ + second, subpath_of(more)),
            }
        },
    }
}

fn subpath(rest: &[char]) -> (r: String)
    ensures
        r@ == subpath_of(rest@),
{
    if rest.len() > 0 {
        let mut out = text::chars_of("./");
        text::append(&mut out, rest);
        text::string_of(&out)
    } else {
        ".".to_string()
    }
}

/// `@scope/pkg/sub` is (`@scope/pkg`, `./sub`); `pkg` is (`pkg`, `.`).
pub fn split_bare_specifier(specifier: &str) -> (r: (String, String))
    ensures
        (r.0@, r.1@) == bare_parts(specifier@),
{
    let chars = text::chars_of(specifier);
    match text::split_once(&chars, '/') {
        None => (specifier.to_string(), ".".to_string()),
        Some((first, rest)) => {
            if chars[0] != '@' {
                return (text::string_of(first), subpath(rest));
            }
            let mut package = text::chars_of("");
            proof {
                reveal_strlit("");
            }
            text::append(&mut package, first);
            text::append_str(&mut package, "/");
            match text::split_once(rest, '/') {
                None => {
                    text::append(&mut package, rest);
                    assert(package@ =~= first@ + "/"@ + rest@);
                    (text::string_of(&package), ".".to_string())
                },
                Some((second, more)) => {
                    text::append(&mut package, second);
                    assert(package@ =~= first@ + "/"@ + second@);
                    (text::string_of(&package), subpath(more))
                },
            }
        },
    }
}

// ---------------------------------------------------------------------------
// The `exports` map.

/// A pattern that matched: what stands before its `*`, its value, and what the
/// `*` stood for.
#[verifier::ext_equal]
pub struct Match {
    pub prefix: Seq<char>,
    pub value: JsonModel,
    pub captured: Seq<char>,
}

/// What a `*` pattern captures of a subpath.
pub open spec fn capture(key: Seq<char>, subpath: Seq<char>) -> Option<(Seq<char>, Seq<char>)> {
    match text::halves(key, '*') {
        Some((prefix, suffix)) => if text::begins(subpath, prefix) && text::ends(
            subpath.skip(prefix.len() as int),
            suffix,
        ) {
            let rest = subpath.skip(prefix.len() as int);
            Some((prefix, rest.take(rest.len() - suffix.len())))
        } else {
            None
        },
        None => None,
    }
}

/// The pattern with the longest prefix that matches, which is Node's rule; of
/// several, the first.
pub open spec fn best_pattern(entries: Seq<(Seq<char>, JsonModel)>, subpath: Seq<char>) -> Option<
    Match,
>
    decreases entries.len(),
{
    if entries.len() == 0 {
        None
    } else {
        let front = best_pattern(entries.drop_last(), subpath);
        let (key, value) = entries.last();
        match capture(key, subpath) {
            Some((prefix, captured)) => if front matches Some(best) && prefix.len()
                <= best.prefix.len() {
                front
            } else {
                Some(Match { prefix, value, captured })
            },
            None => front,
        }
    }
}

/// Whether a map is one of subpaths rather than of conditions.
pub open spec fn maps_subpaths(entries: Seq<(Seq<char>, JsonModel)>) -> bool {
    exists|i: int| 0 <= i < entries.len() && starts_with_dot((#[trigger] entries[i]).0)
}

/// Whether a key starts with a dot.
pub open spec fn starts_with_dot(key: Seq<char>) -> bool {
    key.len() > 0 && key[0] == '.'
}

/// The `exports` entry for a subpath, and what a `*` captured. Anything but a map
/// of subpaths applies to the package itself only.
pub open spec fn subpath_entry(exports: JsonModel, subpath: Seq<char>) -> Option<
    (JsonModel, Option<Seq<char>>),
> {
    match exports {
        JsonModel::Object(entries) if maps_subpaths(entries) => match json::entry_of(
            entries,
            subpath,
        ) {
            Some(exact) => Some((exact, None)),
            None => match best_pattern(entries, subpath) {
                Some(best) => Some((best.value, Some(best.captured))),
                None => None,
            },
        },
        _ => if subpath == "."@ {
            Some((exports, None))
        } else {
            None
        },
    }
}

/// Finds the `exports` entry for a subpath, returning it plus any `*` capture.
pub fn match_subpath<'a>(exports: &'a Json, subpath: &str) -> (r: Option<
    (&'a Json, Option<String>),
>)
    ensures
        match r {
            Some((value, captured)) => subpath_entry(exports@, subpath@) == Some(
                (value@, text::view_of(captured)),
            ),
            None => subpath_entry(exports@, subpath@) is None,
        },
{
    if let Some(entries) = exports.as_object() {
        let ghost all = json::entry_models(entries@);
        if has_subpaths(entries) {
            if let Some(exact) = exports.get(subpath) {
                return Some((exact, None));
            }
            let wanted = text::chars_of(subpath);
            let mut best: Option<(usize, usize, String)> = None;
            let mut i: usize = 0;
            while i < entries.len()
                invariant
                    i <= entries@.len(),
                    all == json::entry_models(entries@),
                    wanted@ == subpath@,
                    match (best, best_pattern(all.take(i as int), subpath@)) {
                        (Some((at, length, captured)), Some(found)) => {
                            &&& at < entries@.len()
                            &&& found.value == entries@[at as int].1@
                            &&& length == found.prefix.len()
                            &&& captured@ == found.captured
                        },
                        (None, None) => true,
                        _ => false,
                    },
                decreases entries@.len() - i,
            {
                let key = text::chars_of(entries[i].0.as_str());
                proof {
                    assert(all.take(i + 1).drop_last() =~= all.take(i as int));
                    assert(all.take(i + 1).last() == all[i as int]);
                }
                if let Some((prefix, suffix)) = text::split_once(&key, '*') {
                    if prefix.len() <= wanted.len() && text::same(
                        text::before(&wanted, prefix.len()),
                        prefix,
                    ) {
                        let rest = text::after(&wanted, prefix.len());
                        if suffix.len() <= rest.len() && text::same(
                            text::after(rest, rest.len() - suffix.len()),
                            suffix,
                        ) {
                            let longer = match &best {
                                Some((_, length, _)) => prefix.len() > *length,
                                None => true,
                            };
                            if longer {
                                let captured = text::string_of(
                                    text::before(rest, rest.len() - suffix.len()),
                                );
                                best = Some((i, prefix.len(), captured));
                            }
                        }
                    }
                }
                i += 1;
            }
            assert(all.take(i as int) =~= all);
            return match best {
                Some((at, _, captured)) => Some((&entries[at].1, Some(captured))),
                None => None,
            };
        }
    }
    if text::same_text(subpath, ".") {
        Some((exports, None))
    } else {
        None
    }
}

fn has_subpaths(entries: &Vec<(String, Json)>) -> (r: bool)
    ensures
        r == maps_subpaths(json::entry_models(entries@)),
{
    let ghost all = json::entry_models(entries@);
    let mut i: usize = 0;
    while i < entries.len()
        invariant
            i <= entries@.len(),
            all == json::entry_models(entries@),
            forall|j: int| 0 <= j < i ==> !starts_with_dot((#[trigger] all[j]).0),
        decreases entries@.len() - i,
    {
        let key = text::chars_of(entries[i].0.as_str());
        assert(all[i as int].0 == key@);
        if key.len() > 0 && key[0] == '.' {
            return true;
        }
        i += 1;
    }
    false
}

/// Whether a condition of a package applies: `default` always does.
pub open spec fn applies(key: Seq<char>, conditions: Seq<Seq<char>>) -> bool {
    key == "default"@ || conditions.contains(key)
}

/// The target that a value selects: a text itself, the first usable item of an
/// array, the first usable entry of an object whose condition applies. Anything
/// else, such as `null`, blocks a subpath on purpose.
pub open spec fn selected(value: JsonModel, conditions: Seq<Seq<char>>) -> Option<Seq<char>>
    decreases value,
{
    match value {
        JsonModel::Text(target) => Some(target),
        JsonModel::Array(items) => selected_item(items, conditions),
        JsonModel::Object(entries) => selected_entry(entries, conditions),
        _ => None,
    }
}

/// The target that the first usable item selects.
pub open spec fn selected_item(items: Seq<JsonModel>, conditions: Seq<Seq<char>>) -> Option<
    Seq<char>,
>
    decreases items,
{
    if items.len() == 0 {
        None
    } else {
        match selected(items[0], conditions) {
            Some(target) => Some(target),
            None => selected_item(items.subrange(1, items.len() as int), conditions),
        }
    }
}

/// The target that the first usable entry selects.
pub open spec fn selected_entry(
    entries: Seq<(Seq<char>, JsonModel)>,
    conditions: Seq<Seq<char>>,
) -> Option<Seq<char>>
    decreases entries,
{
    if entries.len() == 0 {
        None
    } else {
        let first = if applies(entries[0].0, conditions) {
            selected(entries[0].1, conditions)
        } else {
            None
        };
        match first {
            Some(target) => Some(target),
            None => selected_entry(entries.subrange(1, entries.len() as int), conditions),
        }
    }
}

/// Walks a condition object in declaration order.
pub fn select_condition(value: &Json, conditions: &Vec<String>) -> (r: Option<String>)
    ensures
        text::view_of(r) == selected(value@, text::strings(conditions@)),
    decreases value,
{
    match value {
        Json::Text(target) => Some(target.clone()),
        Json::Array(items) => {
            proof {
                json::lemma_array_model(*items);
            }
            let ghost all = json::item_models(items@);
            let ghost given = text::strings(conditions@);
            let mut i: usize = 0;
            assert(all.subrange(0, all.len() as int) =~= all);
            while i < items.len()
                invariant
                    i <= items@.len(),
                    *value == Json::Array(*items),
                    all == json::item_models(items@),
                    given == text::strings(conditions@),
                    selected(value@, given) == selected_item(
                        all.subrange(i as int, all.len() as int),
                        given,
                    ),
                decreases items@.len() - i,
            {
                let ghost rest = all.subrange(i as int, all.len() as int);
                proof {
                    assert(rest[0] == items@[i as int]@);
                    assert(rest.subrange(1, rest.len() as int) =~= all.subrange(
                        i + 1,
                        all.len() as int,
                    ));
                    assert(decreases_to!(value => items));
                    assert(decreases_to!(items => items@));
                    assert(decreases_to!(items@ => items@[i as int]));
                }
                if let Some(target) = select_condition(&items[i], conditions) {
                    return Some(target);
                }
                i += 1;
            }
            None
        },
        Json::Object(entries) => {
            proof {
                json::lemma_object_model(*entries);
            }
            let ghost all = json::entry_models(entries@);
            let ghost given = text::strings(conditions@);
            let mut i: usize = 0;
            assert(all.subrange(0, all.len() as int) =~= all);
            while i < entries.len()
                invariant
                    i <= entries@.len(),
                    *value == Json::Object(*entries),
                    all == json::entry_models(entries@),
                    given == text::strings(conditions@),
                    selected(value@, given) == selected_entry(
                        all.subrange(i as int, all.len() as int),
                        given,
                    ),
                decreases entries@.len() - i,
            {
                let ghost rest = all.subrange(i as int, all.len() as int);
                proof {
                    assert(rest[0] == all[i as int]);
                    assert(rest.subrange(1, rest.len() as int) =~= all.subrange(
                        i + 1,
                        all.len() as int,
                    ));
                    assert(decreases_to!(value => entries));
                    assert(decreases_to!(entries => entries@));
                    assert(decreases_to!(entries@ => entries@[i as int]));
                    assert(decreases_to!(entries@[i as int] => entries@[i as int].1));
                }
                let key = entries[i].0.as_str();
                if text::same_text(key, "default") || holds_text(conditions, key) {
                    if let Some(target) = select_condition(&entries[i].1, conditions) {
                        return Some(target);
                    }
                }
                i += 1;
            }
            None
        },
        _ => None,
    }
}

/// Whether a text is in a list.
pub fn holds_text(list: &Vec<String>, wanted: &str) -> (r: bool)
    ensures
        r == text::strings(list@).contains(wanted@),
{
    let ghost all = text::strings(list@);
    let mut i: usize = 0;
    while i < list.len()
        invariant
            i <= list@.len(),
            all == text::strings(list@),
            forall|j: int| 0 <= j < i ==> #[trigger] all[j] != wanted@,
        decreases list@.len() - i,
    {
        assert(all[i as int] == list@[i as int]@);
        if text::same_text(list[i].as_str(), wanted) {
            return true;
        }
        i += 1;
    }
    assert(all.len() == list@.len());
    false
}

// ---------------------------------------------------------------------------
// What an `exports` map means.

/// Whether a subpath reads as a key with a `*`, the first one of the key, for which
/// something stands in the subpath.
pub open spec fn fits(
    key: Seq<char>,
    subpath: Seq<char>,
    prefix: Seq<char>,
    captured: Seq<char>,
    suffix: Seq<char>,
) -> bool {
    &&& !prefix.contains('*')
    &&& key == prefix + (seq!['*'] + suffix)
    &&& subpath == prefix + (captured + suffix)
}

proof fn lemma_fits(
    key: Seq<char>,
    subpath: Seq<char>,
    prefix: Seq<char>,
    captured: Seq<char>,
    suffix: Seq<char>,
)
    requires
        fits(key, subpath, prefix, captured, suffix),
    ensures
        capture(key, subpath) == Some((prefix, captured)),
{
    text::lemma_halves(prefix, suffix, '*');
    let rest = subpath.skip(prefix.len() as int);
    assert(subpath.take(prefix.len() as int) =~= prefix);
    assert(rest =~= captured + suffix);
    assert(rest.skip(rest.len() - suffix.len()) =~= suffix);
    assert(rest.take(rest.len() - suffix.len()) =~= captured);
}

proof fn lemma_capture(key: Seq<char>, subpath: Seq<char>) -> (suffix: Seq<char>)
    requires
        capture(key, subpath) is Some,
    ensures
        fits(key, subpath, (capture(key, subpath)->0).0, (capture(key, subpath)->0).1, suffix),
{
    let (prefix, suffix) = text::halves(key, '*')->0;
    let rest = subpath.skip(prefix.len() as int);
    text::lemma_first_index(key, '*');
    assert(key =~= prefix + (seq!['*'] + suffix));
    assert(!prefix.contains('*')) by {
        if prefix.contains('*') {
            let k = choose|k: int| 0 <= k < prefix.len() && prefix[k] == '*';
            assert(key[k] == '*');
        }
    }
    let captured = rest.take(rest.len() - suffix.len());
    assert(rest =~= captured + suffix);
    assert(subpath =~= prefix + (captured + suffix));
    suffix
}

/// Whether an entry is the one that a subpath takes by its pattern, and its value.
pub open spec fn is_taken(
    entries: Seq<(Seq<char>, JsonModel)>,
    subpath: Seq<char>,
    value: JsonModel,
    j: int,
    prefix: Seq<char>,
    captured: Seq<char>,
    suffix: Seq<char>,
) -> bool {
    &&& 0 <= j < entries.len()
    &&& entries[j].1 == value
    &&& fits(entries[j].0, subpath, prefix, captured, suffix)
    &&& forall|i: int, p: Seq<char>, c: Seq<char>, s: Seq<char>|
        0 <= i < entries.len() && #[trigger] fits(entries[i].0, subpath, p, c, s) ==> p.len()
            <= prefix.len() && (p.len() == prefix.len() ==> j <= i)
}

proof fn lemma_best_pattern(entries: Seq<(Seq<char>, JsonModel)>, subpath: Seq<char>) -> (r: (
    int,
    Seq<char>,
))
    ensures
        match best_pattern(entries, subpath) {
            Some(best) => is_taken(
                entries,
                subpath,
                best.value,
                r.0,
                best.prefix,
                best.captured,
                r.1,
            ),
            None => forall|i: int, p: Seq<char>, c: Seq<char>, s: Seq<char>|
                0 <= i < entries.len() ==> !(#[trigger] fits(entries[i].0, subpath, p, c, s)),
        },
    decreases entries.len(),
{
    if entries.len() == 0 {
        (0, Seq::empty())
    } else {
        let front = entries.drop_last();
        let last = entries.len() - 1;
        let before = lemma_best_pattern(front, subpath);
        let key = entries.last().0;
        assert(entries[last] == entries.last());
        let found = match (capture(key, subpath), best_pattern(front, subpath)) {
            (Some((prefix, _)), Some(best)) if prefix.len() <= best.prefix.len() => before,
            (Some(_), _) => {
                let suffix = lemma_capture(key, subpath);
                (last, suffix)
            },
            (None, _) => before,
        };
        assert forall|i: int, p: Seq<char>, c: Seq<char>, s: Seq<char>|
            0 <= i < entries.len() && #[trigger] fits(entries[i].0, subpath, p, c, s) implies (
        best_pattern(entries, subpath) matches Some(best) && p.len() <= best.prefix.len() && (
        p.len() == best.prefix.len() ==> found.0 <= i)) by {
            lemma_fits(entries[i].0, subpath, p, c, s);
            if i < last {
                assert(front[i] == entries[i]);
                assert(fits(front[i].0, subpath, p, c, s));
            }
        }
        if 0 <= found.0 < last {
            assert(front[found.0] == entries[found.0]);
        }
        found
    }
}

/// Of all keys whose pattern a subpath fits, the one with the longest text before
/// its `*` is taken, and of several such the first, in whatever order the map lists
/// them. There is none only where the subpath fits no key.
pub proof fn longest_pattern_wins(entries: Seq<(Seq<char>, JsonModel)>, subpath: Seq<char>)
    requires
        exists|i: int|
            0 <= i < entries.len() && (#[trigger] entries[i]).0.len() > 0 && entries[i].0[0] == '.',
        forall|i: int| 0 <= i < entries.len() ==> (#[trigger] entries[i]).0 != subpath,
    ensures
        subpath_entry(JsonModel::Object(entries), subpath) matches Some((value, captured)) ==> {
            &&& captured is Some
            &&& exists|j: int, prefix: Seq<char>, suffix: Seq<char>| #[trigger]
                is_taken(entries, subpath, value, j, prefix, captured->0, suffix)
        },
        subpath_entry(JsonModel::Object(entries), subpath) is None ==> forall|
            i: int,
            p: Seq<char>,
            c: Seq<char>,
            s: Seq<char>,
        |
            0 <= i < entries.len() ==> !(#[trigger] fits(entries[i].0, subpath, p, c, s)),
{
    let map = JsonModel::Object(entries);
    let i = choose|i: int|
        0 <= i < entries.len() && (#[trigger] entries[i]).0.len() > 0 && entries[i].0[0] == '.';
    assert(starts_with_dot(entries[i].0));
    json::fields_are_entries(map, subpath);
    assert(json::is_silent(map, subpath));
    assert(json::entry_of(entries, subpath) is None);
    let found = lemma_best_pattern(entries, subpath);
    if let Some(best) = best_pattern(entries, subpath) {
        let (value, captured) = subpath_entry(map, subpath)->0;
        assert(value == best.value && captured == Some(best.captured));
        assert(is_taken(
            entries,
            subpath,
            value,
            found.0,
            best.prefix,
            captured->0,
            found.1,
        ));
    } else {
        assert(subpath_entry(map, subpath) is None);
    }
}

/// A key that is the subpath itself is taken before any pattern, and captures
/// nothing.
pub proof fn exact_keys_win(
    entries: Seq<(Seq<char>, JsonModel)>,
    subpath: Seq<char>,
    value: JsonModel,
)
    requires
        subpath.len() > 0 && subpath[0] == '.',
        json::says(JsonModel::Object(entries), subpath, value),
    ensures
        subpath_entry(JsonModel::Object(entries), subpath) == Some((value, None::<Seq<char>>)),
{
    let map = JsonModel::Object(entries);
    json::fields_are_entries(map, subpath);
    let i = choose|i: int|
        0 <= i < map->Object_0.len() && #[trigger] map->Object_0[i] == (subpath, value);
    assert(starts_with_dot(entries[i].0));
}

/// A map without subpaths, and anything that is no map, speaks of the package itself
/// and of nothing in it.
pub proof fn sugar_is_for_the_package(exports: JsonModel, subpath: Seq<char>)
    requires
        exports is Object ==> forall|i: int|
            0 <= i < exports->Object_0.len() ==> (#[trigger] exports->Object_0[i]).0.len() == 0
                || exports->Object_0[i].0[0] != '.',
    ensures
        subpath_entry(exports, "."@) == Some((exports, None::<Seq<char>>)),
        subpath != "."@ ==> subpath_entry(exports, subpath) is None,
{
    if let JsonModel::Object(entries) = exports {
        assert(!maps_subpaths(entries));
    }
}

proof fn lemma_selected_entry(
    entries: Seq<(Seq<char>, JsonModel)>,
    conditions: Seq<Seq<char>>,
    i: int,
)
    requires
        0 <= i <= entries.len(),
        forall|j: int|
            0 <= j < i ==> ((#[trigger] entries[j]).0 == "default"@ || conditions.contains(
                entries[j].0,
            )) ==> selected(entries[j].1, conditions) is None,
    ensures
        selected_entry(entries, conditions) == selected_entry(
            entries.subrange(i, entries.len() as int),
            conditions,
        ),
    decreases i,
{
    let n = entries.len() as int;
    if i == 0 {
        assert(entries.subrange(0, n) =~= entries);
    } else {
        lemma_selected_entry(entries, conditions, i - 1);
        let rest = entries.subrange(i - 1, n);
        assert(rest[0] == entries[i - 1]);
        assert(rest.subrange(1, rest.len() as int) =~= entries.subrange(i, n));
    }
}

/// A map of conditions selects what the first of its entries selects that applies and
/// selects anything. An entry applies if its condition is one of those at hand, and
/// `default` always does. Where there is no such entry, the map selects nothing.
pub proof fn conditions_apply_in_order(
    entries: Seq<(Seq<char>, JsonModel)>,
    conditions: Seq<Seq<char>>,
    i: int,
)
    requires
        0 <= i <= entries.len(),
        forall|j: int|
            0 <= j < i ==> ((#[trigger] entries[j]).0 == "default"@ || conditions.contains(
                entries[j].0,
            )) ==> selected(entries[j].1, conditions) is None,
    ensures
        i < entries.len() && (entries[i].0 == "default"@ || conditions.contains(entries[i].0))
            && selected(entries[i].1, conditions) is Some ==> selected(
            JsonModel::Object(entries),
            conditions,
        ) == selected(entries[i].1, conditions),
        i == entries.len() ==> selected(JsonModel::Object(entries), conditions) is None,
{
    lemma_selected_entry(entries, conditions, i);
    let rest = entries.subrange(i, entries.len() as int);
    if i < entries.len() {
        assert(rest[0] == entries[i]);
    }
}

proof fn lemma_selected_item(items: Seq<JsonModel>, conditions: Seq<Seq<char>>, i: int)
    requires
        0 <= i <= items.len(),
        forall|j: int| 0 <= j < i ==> selected(#[trigger] items[j], conditions) is None,
    ensures
        selected_item(items, conditions) == selected_item(
            items.subrange(i, items.len() as int),
            conditions,
        ),
    decreases i,
{
    let n = items.len() as int;
    if i == 0 {
        assert(items.subrange(0, n) =~= items);
    } else {
        lemma_selected_item(items, conditions, i - 1);
        let rest = items.subrange(i - 1, n);
        assert(rest[0] == items[i - 1]);
        assert(rest.subrange(1, rest.len() as int) =~= items.subrange(i, n));
    }
}

/// A list selects what the first of its items selects that selects anything; a text
/// selects itself; what is neither, nor a map, selects nothing, whatever the
/// conditions.
pub proof fn lists_fall_back(items: Seq<JsonModel>, conditions: Seq<Seq<char>>, i: int)
    requires
        0 <= i <= items.len(),
        forall|j: int| 0 <= j < i ==> selected(#[trigger] items[j], conditions) is None,
    ensures
        i < items.len() && selected(items[i], conditions) is Some ==> selected(
            JsonModel::Array(items),
            conditions,
        ) == selected(items[i], conditions),
        i == items.len() ==> selected(JsonModel::Array(items), conditions) is None,
        forall|target: Seq<char>|
            #[trigger] selected(JsonModel::Text(target), conditions) == Some(target),
        selected(JsonModel::Null, conditions) is None,
        selected(JsonModel::Number, conditions) is None,
        forall|b: bool| (#[trigger] selected(JsonModel::Bool(b), conditions)) is None,
{
    lemma_selected_item(items, conditions, i);
    let rest = items.subrange(i, items.len() as int);
    if i < items.len() {
        assert(rest[0] == items[i]);
    }
}

/// A specifier with a package's name in front asks that package for what follows:
/// for the package itself where nothing does, else for `./` and the rest. A scope and
/// the name behind it are one package's name.
pub proof fn specifiers_name_packages(name: Seq<char>, scope: Seq<char>, rest: Seq<char>)
    requires
        name.len() > 0 && !name.contains('/') && name[0] != '@',
        scope.len() > 0 && !scope.contains('/') && scope[0] == '@',
        rest.len() > 0,
    ensures
        bare_parts(name) == (name, "."@),
        bare_parts(name + (seq!['/'] + rest)) == (name, "./"@ + rest),
        bare_parts(scope + (seq!['/'] + name)) == (scope + (seq!['/'] + name), "."@),
        bare_parts(scope + (seq!['/'] + (name + (seq!['/'] + rest)))) == (
            scope + (seq!['/'] + name),
            "./"@ + rest,
        ),
{
    reveal_strlit("/");
    text::lemma_halves_none(name, '/');
    text::lemma_halves(name, rest, '/');
    text::lemma_halves(scope, name, '/');
    let more = name + (seq!['/'] + rest);
    text::lemma_halves(scope, more, '/');
    assert((name + (seq!['/'] + rest))[0] == name[0]);
    assert((scope + (seq!['/'] + name))[0] == '@');
    assert((scope + (seq!['/'] + more))[0] == '@');
    assert(scope + "/"@ + name =~= scope + (seq!['/'] + name));
}

/// No path names a builtin: a builtin's name starts with a letter.
pub proof fn builtins_are_no_paths(s: Seq<char>)
    requires
        is_builtin_name(s),
    ensures
        s.len() > 0 && 'a' <= s[0] && s[0] <= 'z',
{
    reveal_strlit("assert");
    reveal_strlit("async_hooks");
    reveal_strlit("buffer");
    reveal_strlit("child_process");
    reveal_strlit("cluster");
    reveal_strlit("console");
    reveal_strlit("constants");
    reveal_strlit("crypto");
    reveal_strlit("dgram");
    reveal_strlit("diagnostics_channel");
    reveal_strlit("dns");
    reveal_strlit("domain");
    reveal_strlit("events");
    reveal_strlit("fs");
    reveal_strlit("http");
    reveal_strlit("http2");
    reveal_strlit("https");
    reveal_strlit("inspector");
    reveal_strlit("module");
    reveal_strlit("net");
    reveal_strlit("os");
    reveal_strlit("path");
    reveal_strlit("perf_hooks");
    reveal_strlit("process");
    reveal_strlit("punycode");
    reveal_strlit("querystring");
    reveal_strlit("readline");
    reveal_strlit("repl");
    reveal_strlit("stream");
    reveal_strlit("string_decoder");
    reveal_strlit("sys");
    reveal_strlit("timers");
    reveal_strlit("tls");
    reveal_strlit("trace_events");
    reveal_strlit("tty");
    reveal_strlit("url");
    reveal_strlit("util");
    reveal_strlit("v8");
    reveal_strlit("vm");
    reveal_strlit("wasi");
    reveal_strlit("worker_threads");
    reveal_strlit("zlib");
}

} // verus!
