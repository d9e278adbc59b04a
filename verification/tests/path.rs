use opal::path::{NormalizedPath, PathError};

#[test]
fn test_normalizes_redundant_syntax() {
    assert_eq!(NormalizedPath::new("a//b/./c/").as_str(), "a/b/c");
    assert_eq!(NormalizedPath::new("./a/b").as_str(), "a/b");
    assert_eq!(NormalizedPath::new("/a/b/../c").as_str(), "/a/c");
    assert_eq!(NormalizedPath::new("").as_str(), ".");
    assert_eq!(NormalizedPath::new(".").as_str(), ".");
    assert_eq!(NormalizedPath::new("/").as_str(), "/");
}

#[test]
fn test_treats_backslash_as_separator() {
    assert_eq!(NormalizedPath::new(r"a\b/c").as_str(), "a/b/c");
    assert_eq!(NormalizedPath::new(r"\a\b").as_str(), "/a/b");
}

#[test]
fn test_normalizes_windows_drive_roots() {
    assert_eq!(NormalizedPath::new(r"c:\a\b").as_str(), "C:/a/b");
    assert_eq!(
        NormalizedPath::new("C:/a/b"),
        NormalizedPath::new(r"c:\a\b")
    );
    assert!(NormalizedPath::new(r"c:\a").is_absolute());
}

#[test]
fn test_dot_dot_cannot_escape_an_absolute_root() {
    assert_eq!(NormalizedPath::new("/../../a").as_str(), "/a");
    assert_eq!(NormalizedPath::new(r"C:\..\a").as_str(), "C:/a");
}

#[test]
fn test_dot_dot_accumulates_in_a_relative_path() {
    assert_eq!(NormalizedPath::new("../../a").as_str(), "../../a");
    assert_eq!(NormalizedPath::new("a/../../b").as_str(), "../b");
}

#[test]
fn test_join_replaces_on_absolute_argument() {
    let base = NormalizedPath::new("/project/src");
    assert_eq!(base.join("../lib/a.js").as_str(), "/project/lib/a.js");
    assert_eq!(base.join("/etc/hosts").as_str(), "/etc/hosts");
}

#[test]
fn test_parent_stops_at_root() {
    assert_eq!(NormalizedPath::new("/a/b").parent().unwrap().as_str(), "/a");
    assert_eq!(NormalizedPath::new("a").parent().unwrap().as_str(), ".");
    assert!(NormalizedPath::new("/").parent().is_none());
    assert!(NormalizedPath::new("C:/").parent().is_none());
}

#[test]
fn test_file_name_and_extension() {
    let path = NormalizedPath::new("/a/b/c.min.js");
    assert_eq!(path.file_name(), Some("c.min.js"));
    assert_eq!(path.extension(), Some("js"));
    assert_eq!(NormalizedPath::new("/a/.bashrc").extension(), None);
    assert_eq!(NormalizedPath::new("/a/b").extension(), None);
    assert_eq!(NormalizedPath::new("/").file_name(), None);
}

#[test]
fn test_starts_with_compares_whole_segments() {
    let path = NormalizedPath::new("/a/bc/d");
    assert!(path.starts_with(&NormalizedPath::new("/a/bc")));
    assert!(!path.starts_with(&NormalizedPath::new("/a/b")));
    assert!(!path.starts_with(&NormalizedPath::new("a/bc")));
}

#[test]
fn test_relative_to() {
    let base = NormalizedPath::new("/project");
    assert_eq!(
        NormalizedPath::new("/project/src/a.js")
            .relative_to(&base)
            .unwrap()
            .as_str(),
        "src/a.js"
    );
    assert_eq!(
        NormalizedPath::new("/other/a.js")
            .relative_to(&base)
            .unwrap()
            .as_str(),
        "../other/a.js"
    );
    assert_eq!(base.relative_to(&base).unwrap().as_str(), ".");
    assert!(NormalizedPath::new("a.js").relative_to(&base).is_none());
}

#[test]
fn test_case_collision_is_detectable_but_not_identity() {
    let lower = NormalizedPath::new("/a/react.js");
    let upper = NormalizedPath::new("/a/React.js");
    assert_ne!(lower, upper);
    assert!(lower.eq_case_insensitive(&upper));
}

#[test]
fn case_fold_key_lowers_more_than_ascii() {
    assert_eq!(NormalizedPath::new("/A/ÄB.js").case_fold_key(), "/a/äb.js");
    assert!(!NormalizedPath::new("/a/x").eq_case_insensitive(&NormalizedPath::new("/a/y")));
}

#[test]
fn normalizing_twice_changes_nothing() {
    for text in ["a//b/../c", "../x/./y", r"c:\a\..\b", "/..", "", "a/..", "x\\y"] {
        let once = NormalizedPath::new(text);
        assert_eq!(NormalizedPath::new(once.as_str()), once, "{text}");
    }
}

#[test]
fn a_relative_path_leads_back() {
    let base = NormalizedPath::new("/project/src");
    for text in ["/project/lib/a.js", "/project/src/b.js", "/other", "/"] {
        let path = NormalizedPath::new(text);
        let route = path.relative_to(&base).unwrap();
        assert_eq!(base.join(route.as_str()), path, "{text}");
    }
}

#[test]
fn relative_bases_are_compared_by_segment() {
    let base = NormalizedPath::new("a/b");
    assert_eq!(
        NormalizedPath::new("a/c").relative_to(&base).unwrap().as_str(),
        "../c"
    );
    assert!(base.relative_to(&NormalizedPath::new("C:/a")).is_none());
}

#[test]
fn native_paths_must_be_unicode() {
    let path = NormalizedPath::from_native("/project/./src".as_bytes()).unwrap();
    assert_eq!(path.as_str(), "/project/src");
    let broken = vec![b'/', b'a', 0xff];
    assert_eq!(
        NormalizedPath::from_native(&broken),
        Err(PathError::NonUtf8(broken.clone()))
    );
    let message = PathError::NonUtf8(broken).to_string();
    assert!(message.contains("/a\u{fffd}"), "{message}");
}

#[test]
fn suffixes_and_segments() {
    let path = NormalizedPath::new("/a/b");
    assert_eq!(path.with_suffix(".js").as_str(), "/a/b.js");
    assert_eq!(path.segments(), vec!["a".to_string(), "b".to_string()]);
    assert_eq!(NormalizedPath::new("../x").segments(), vec!["..", "x"]);
    assert_eq!(path.to_string(), "/a/b");
    assert_eq!(path.into_string(), "/a/b");
}

#[test]
fn directories_sort_before_what_they_hold() {
    for (base, path) in [("/", "/a"), ("a", "a/b"), ("C:/", "C:/x/y"), ("a/b", "a/b/c")] {
        let base = NormalizedPath::new(base);
        let path = NormalizedPath::new(path);
        assert!(path.starts_with(&base));
        assert!(base.as_str() < path.as_str());
    }
}

#[test]
fn joining_twice_is_joining_once() {
    for base in ["/project", "a/b", ".", "../x", "/"] {
        let base = NormalizedPath::new(base);
        for (first, second) in [("a", "b"), ("a/..", "../b"), (".", "x"), ("../..", "y/.")] {
            let twice = base.join(first).join(second);
            assert_eq!(twice, base.join(&format!("{first}/{second}")), "{first} {second}");
        }
        assert_eq!(base.join("/abs"), NormalizedPath::new("/abs"));
        assert_eq!(base.join("."), base);
    }
}

#[test]
fn parents_hold_their_files() {
    for text in ["/a/b.js", "a/b", "x", "C:/y/z", "../q/r"] {
        let path = NormalizedPath::new(text);
        let name = path.file_name().unwrap().to_string();
        assert_eq!(path.parent().unwrap().join(&name), path, "{text}");
        assert_eq!(path.segments().last().map(|s| s.to_string()), Some(name), "{text}");
    }
    for text in ["/", "C:/"] {
        assert!(NormalizedPath::new(text).parent().is_none(), "{text}");
    }
    for text in ["/", ".", "..", "../.."] {
        assert!(NormalizedPath::new(text).file_name().is_none(), "{text}");
    }
}

#[test]
fn a_path_is_its_root_and_its_segments() {
    for (text, root) in [("/a/b", "/"), ("c:/x/y", "C:/"), ("a/b", ""), ("../z", "")] {
        let path = NormalizedPath::new(text);
        let segments: Vec<String> = path.segments().iter().map(|s| s.to_string()).collect();
        assert_eq!(path.as_str(), format!("{root}{}", segments.join("/")), "{text}");
    }
}

#[test]
fn ascii_paths_fold_letter_by_letter() {
    assert_eq!(NormalizedPath::new("/AbZ/@[x9.JS").case_fold_key(), "/abz/@[x9.js");
}

#[test]
fn colons_behind_the_second_byte_are_ordinary() {
    let base = NormalizedPath::new("/a/x:y");
    assert_eq!(base.join("b").join("../c").as_str(), "/a/x:y/c");
    assert_eq!(base.join("b/../c").as_str(), "/a/x:y/c");
    assert_eq!(base.parent().unwrap().as_str(), "/a");
    assert_eq!(base.file_name(), Some("x:y"));
    let drive = NormalizedPath::new("c:/a/bb:c");
    assert_eq!(drive.parent().unwrap().join("bb:c").as_str(), "C:/a/bb:c");
}
