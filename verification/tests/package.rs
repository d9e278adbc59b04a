use std::collections::BTreeMap;

use opal::cas::{Cas, Placement, Put};
use opal::hash::ContentHash;
use opal::integrity::{Algorithm, Integrity, IntegrityError};
use opal::native::NativePath;
use opal::package::{
    file_archive, pointer_entries, pointer_target, pointer_text, strip_package_root, Archive,
    Member, PackageError, PackageIndex, PackageStore, PointerFile,
};
use opal::path::NormalizedPath;
use opal::semver::Version;

fn tarball(files: &[(&str, &[u8], u32)]) -> Vec<u8> {
    let mut encoder = flate2::write::GzEncoder::new(Vec::new(), flate2::Compression::default());
    {
        let mut builder = tar::Builder::new(&mut encoder);
        for (path, contents, mode) in files {
            let mut header = tar::Header::new_gnu();
            header.set_size(contents.len() as u64);
            header.set_mode(*mode);
            header.set_cksum();
            builder.append_data(&mut header, path, *contents).unwrap();
        }
        builder.finish().unwrap();
    }
    encoder.finish().unwrap()
}

/// A store whose files are kept in memory.
struct Shelf {
    store: PackageStore,
    objects: BTreeMap<String, Vec<u8>>,
    pointers: BTreeMap<String, String>,
    indexes: BTreeMap<ContentHash, PackageIndex>,
}

impl Shelf {
    fn new() -> Self {
        Shelf {
            store: PackageStore::at(Cas::at("/cache/cas"), "/cache"),
            objects: BTreeMap::new(),
            pointers: BTreeMap::new(),
            indexes: BTreeMap::new(),
        }
    }

    fn put(&mut self, bytes: &[u8]) -> ContentHash {
        let mut put = Put::new();
        put.chunk(bytes);
        let stored = self.objects.contains_key(&put.target(self.store.cas()));
        match put
            .place(self.store.cas(), &ContentHash::of(bytes), stored)
            .unwrap()
        {
            Placement::Rename { hash, target, .. } => {
                self.objects.insert(target, bytes.to_vec());
                hash
            }
            Placement::Drop { hash } => hash,
        }
    }

    fn ingest(
        &mut self,
        name: &str,
        version: &Version,
        integrity: &Integrity,
        bytes: &[u8],
    ) -> Result<ContentHash, PackageError> {
        let ingest = self.store.ingest(name, version, integrity, bytes)?;
        for write in &ingest.writes {
            self.put(&write.contents);
        }
        let index = ingest.end?;
        let hash = self.put(format!("{index:?}").as_bytes());
        self.indexes.insert(hash, index);
        self.pointers
            .insert(self.store.pointer_path(integrity), pointer_text(&hash));
        Ok(hash)
    }

    fn lookup(&self, integrity: &Integrity) -> Option<ContentHash> {
        let text = self.pointers.get(&self.store.pointer_path(integrity))?;
        pointer_target(text)
    }

    fn read_index(&self, hash: &ContentHash) -> &PackageIndex {
        self.indexes.get(hash).unwrap()
    }

    fn read(&self, hash: &ContentHash) -> &[u8] {
        &self.objects[&self.store.cas().object_path(hash)]
    }
}

#[test]
fn test_ingest_files_every_entry_and_records_modes() {
    let mut store = Shelf::new();
    let bytes = tarball(&[
        ("package/index.js", b"module.exports = 1;\n", 0o644),
        ("package/bin/cli.js", b"#!/usr/bin/env node\n", 0o755),
    ]);
    let integrity = Integrity::of(Algorithm::Sha512, &bytes);

    let hash = store
        .ingest("demo", &Version::new(1, 0, 0), &integrity, &bytes)
        .unwrap();
    let index = store.read_index(&hash);

    assert_eq!(index.name, "demo");
    assert_eq!(index.files.len(), 2);
    assert!(!index.file("index.js").unwrap().executable);
    assert!(index.file("bin/cli.js").unwrap().executable);
    assert_eq!(
        store.read(&index.file("index.js").unwrap().hash),
        b"module.exports = 1;\n"
    );
}

#[test]
fn test_ingest_is_deterministic_and_pointer_backed() {
    let mut store = Shelf::new();
    let bytes = tarball(&[("package/index.js", b"same", 0o644)]);
    let integrity = Integrity::of(Algorithm::Sha512, &bytes);

    assert_eq!(store.lookup(&integrity), None);
    let first = store
        .ingest("demo", &Version::new(1, 0, 0), &integrity, &bytes)
        .unwrap();
    assert_eq!(store.lookup(&integrity), Some(first));

    let second = store
        .ingest("demo", &Version::new(1, 0, 0), &integrity, &bytes)
        .unwrap();
    assert_eq!(first, second);
}

#[test]
fn test_identical_files_in_different_packages_share_one_object() {
    let mut store = Shelf::new();
    let shared: &[u8] = b"the same license text\n";
    let first = tarball(&[
        ("package/LICENSE", shared, 0o644),
        ("package/a.js", b"a", 0o644),
    ]);
    let second = tarball(&[
        ("package/LICENSE", shared, 0o644),
        ("package/b.js", b"b", 0o644),
    ]);

    let first_hash = store
        .ingest(
            "first",
            &Version::new(1, 0, 0),
            &Integrity::of(Algorithm::Sha512, &first),
            &first,
        )
        .unwrap();
    let second_hash = store
        .ingest(
            "second",
            &Version::new(1, 0, 0),
            &Integrity::of(Algorithm::Sha512, &second),
            &second,
        )
        .unwrap();

    let first_index = store.read_index(&first_hash);
    let second_index = store.read_index(&second_hash);
    assert_eq!(
        first_index.file("LICENSE").unwrap().hash,
        second_index.file("LICENSE").unwrap().hash
    );
    // Three distinct files, plus the two indexes.
    assert_eq!(store.objects.len(), 5);
}

#[test]
fn test_refuses_a_tarball_whose_integrity_does_not_match() {
    let mut store = Shelf::new();
    let bytes = tarball(&[("package/index.js", b"real", 0o644)]);
    let wrong = Integrity::of(Algorithm::Sha512, b"something else");

    assert!(matches!(
        store.ingest("demo", &Version::new(1, 0, 0), &wrong, &bytes),
        Err(PackageError::Integrity(_))
    ));
    // Nothing from an unverified tarball reaches the store.
    assert!(store.objects.is_empty());
}

#[test]
fn test_rejects_paths_that_escape_the_package() {
    assert_eq!(
        strip_package_root("package/lib/a.js".as_bytes()).map(|path| path.into_string()),
        Some("lib/a.js".to_string())
    );
    assert!(strip_package_root("package/../../etc/passwd".as_bytes()).is_none());
    assert!(strip_package_root("/etc/passwd".as_bytes()).is_none());
    assert!(strip_package_root("package".as_bytes()).is_none());
}

#[test]
fn test_empty_tarball_is_an_error_not_an_empty_package() {
    let mut store = Shelf::new();
    let bytes = tarball(&[]);
    let integrity = Integrity::of(Algorithm::Sha512, &bytes);
    assert!(matches!(
        store.ingest("demo", &Version::new(1, 0, 0), &integrity, &bytes),
        Err(PackageError::Empty { .. })
    ));
}

#[test]
fn no_spelling_of_a_member_escapes() {
    for path in [
        "package/..\\..\\etc",
        "package/./../x",
        "package/C:/windows",
        "package/\\absolute",
        "./package/a",
        "",
        "package/./.",
    ] {
        assert!(strip_package_root(path.as_bytes()).is_none(), "{path}");
    }
    assert_eq!(
        strip_package_root(b"anything/./lib//a.js").unwrap().as_str(),
        "lib/a.js"
    );
    assert!(strip_package_root(&[b'p', b'/', 0xff]).is_none());
}

fn member(path: &str, contents: &[u8]) -> Member {
    Member {
        path: path.as_bytes().to_vec(),
        mode: Some(0o644),
        size: contents.len() as u64,
        contents: Some(Ok(contents.to_vec())),
    }
}

#[test]
fn archives_that_break_off_are_refused() {
    let archive = Archive {
        members: vec![member("package/a", b"a")],
        failure: Some("unexpected end".to_string()),
    };
    let ingest = file_archive("demo", &Version::new(1, 0, 0), "/cache/cas/tmp", &archive);
    assert_eq!(ingest.writes.len(), 1);
    let error = ingest.end.unwrap_err();
    assert!(matches!(error, PackageError::Tarball { .. }));
    assert!(error.to_string().contains("unexpected end"));
}

#[test]
fn directories_and_strays_are_no_files() {
    let mut directory = member("package/lib", b"");
    directory.contents = None;
    let archive = Archive {
        members: vec![directory, member("/etc/passwd", b"x"), member("package/a", b"a")],
        failure: None,
    };
    let ingest = file_archive("demo", &Version::new(1, 0, 0), "/cache/cas/tmp", &archive);
    let index = ingest.end.unwrap();
    assert_eq!(index.files.len(), 1);
    assert_eq!(index.files.key_at(0), &NormalizedPath::new("a"));
    assert_eq!(index.file("a").unwrap().hash, ContentHash::of(b"a"));
}

#[test]
fn bytes_that_are_no_gzip_are_a_broken_tarball() {
    let store = PackageStore::at(Cas::at("/cache/cas"), "/cache");
    let bytes = b"not a tarball";
    let integrity = Integrity::of(Algorithm::Sha512, bytes);
    let ingest = store
        .ingest("demo", &Version::new(1, 0, 0), &integrity, bytes)
        .unwrap();
    assert!(matches!(ingest.end, Err(PackageError::Tarball { .. })));
    assert!(matches!(
        store.ingest("demo", &Version::new(1, 0, 0), &integrity, b"other"),
        Err(PackageError::Integrity(IntegrityError::Mismatch { .. }))
    ));
}

#[test]
fn indexes_of_another_format_are_refused() {
    let archive = Archive { members: vec![member("package/a", b"a")], failure: None };
    let ingest = file_archive("demo", &Version::new(1, 0, 0), "/cache/cas/tmp", &archive);
    let mut index = ingest.end.unwrap();
    index.format = 99;
    let hash = ContentHash::of(b"index");
    assert!(matches!(
        index.check_format(&hash),
        Err(PackageError::IndexVersion { version: 99, .. })
    ));
}

#[test]
fn pointers_read_back() {
    let hash = ContentHash::of(b"target");
    assert_eq!(pointer_target(&pointer_text(&hash)), Some(hash));
    assert_eq!(pointer_target("torn"), None);
    let files = vec![
        PointerFile {
            path: NativePath { path: "/b".to_string() },
            content: Some(pointer_text(&hash)),
        },
        PointerFile {
            path: NativePath { path: "/c".to_string() },
            content: Some("torn".to_string()),
        },
        PointerFile { path: NativePath { path: "/d".to_string() }, content: None },
        PointerFile {
            path: NativePath { path: "/a".to_string() },
            content: Some(pointer_text(&hash)),
        },
    ];
    let found = pointer_entries(&files);
    assert_eq!(found.len(), 2);
    assert_eq!(found[0].path.path, "/a");
    assert_eq!(found[1].path.path, "/b");
    assert_eq!(found[0].target, hash);
}

#[test]
fn pointers_are_filed_by_integrity() {
    let store = PackageStore::at(Cas::at("/cache/cas"), "/cache");
    let one = store.pointer_path(&Integrity::of(Algorithm::Sha512, b"one"));
    let two = store.pointer_path(&Integrity::of(Algorithm::Sha512, b"two"));
    assert_ne!(one, two);
    assert!(one.starts_with(store.pointers()));
    assert_eq!(store.cache_root(), "/cache");
    assert_eq!(store.cas().root(), "/cache/cas");
}

#[test]
fn contents_that_cannot_be_read_fail_in_the_store() {
    let mut torn = member("package/b", b"");
    torn.contents = Some(Err("corrupt deflate stream".to_string()));
    let archive = Archive { members: vec![member("package/a", b"a"), torn], failure: None };
    let ingest = file_archive("demo", &Version::new(1, 0, 0), "/cache/cas/tmp", &archive);
    assert_eq!(ingest.writes.len(), 1);
    let error = ingest.end.unwrap_err();
    assert!(matches!(error, PackageError::Cas(_)));
    assert_eq!(error.to_string(), "/cache/cas/tmp: corrupt deflate stream");
}

fn gzip(bytes: &[u8]) -> Vec<u8> {
    let mut encoder = flate2::write::GzEncoder::new(Vec::new(), flate2::Compression::default());
    std::io::Write::write_all(&mut encoder, bytes).unwrap();
    encoder.finish().unwrap()
}

/// A header of a sparse member of a size, whose map may go on in further blocks.
fn sparse_header(size: u64, long_map: bool) -> Vec<u8> {
    let mut header = tar::Header::new_gnu();
    header.set_entry_type(tar::EntryType::GNUSparse);
    let bytes = header.as_mut_bytes();
    bytes[124] = 0x80;
    bytes[128..136].copy_from_slice(&size.to_be_bytes());
    bytes[482] = u8::from(long_map);
    header.set_cksum();
    header.as_bytes().to_vec()
}

fn ingest_error(bytes: &[u8]) -> String {
    let store = PackageStore::at(Cas::at("/cache/cas"), "/cache");
    let integrity = Integrity::of(Algorithm::Sha512, bytes);
    let ingest = store
        .ingest("demo", &Version::new(1, 0, 0), &integrity, bytes)
        .unwrap();
    ingest.end.unwrap_err().to_string()
}

#[test]
fn members_that_reach_too_far_are_refused() {
    let overflow = "demo@1.0.0: tarball is not readable: size overflow";
    for (size, long_map, refused) in [
        (u64::MAX - 1023, false, false),
        (u64::MAX - 1023, true, true),
        (u64::MAX / 2, true, false),
    ] {
        let mut bytes = sparse_header(size, long_map);
        bytes.extend(vec![0u8; 1024]);
        assert_eq!(ingest_error(&gzip(&bytes)) == overflow, refused);
    }
}

#[test]
fn headers_inside_of_files_are_contents() {
    let mut bytes = b"seems like an archive\n".to_vec();
    bytes.resize(512, b' ');
    bytes.extend(sparse_header(u64::MAX - 1023, true));
    bytes.extend(vec![0u8; 1024]);
    let mut odd = vec![0u8; 512];
    odd[156] = b'S';
    odd[124] = 0x80;
    odd[482] = 1;
    let store = PackageStore::at(Cas::at("/cache/cas"), "/cache");
    let archive = tarball(&[
        ("package/a.tar", &bytes, 0o644),
        ("package/b.bin", &odd, 0o644),
        ("package/c.js", b"c", 0o755),
    ]);
    let integrity = Integrity::of(Algorithm::Sha512, &archive);
    let ingest = store
        .ingest("demo", &Version::new(1, 0, 0), &integrity, &archive)
        .unwrap();
    let index = ingest.end.unwrap();
    assert_eq!(index.file("a.tar").unwrap().hash, ContentHash::of(&bytes));
    assert_eq!(index.file("a.tar").unwrap().size, bytes.len() as u64);
    assert_eq!(index.file("b.bin").unwrap().hash, ContentHash::of(&odd));
    assert!(index.file("c.js").unwrap().executable);
}

#[test]
fn ingested_files_are_found_by_their_paths() {
    let store = PackageStore::at(Cas::at("/cache/cas"), "/cache");
    let mut encoder = flate2::write::GzEncoder::new(Vec::new(), flate2::Compression::default());
    {
        let mut builder = tar::Builder::new(&mut encoder);
        let mut directory = tar::Header::new_gnu();
        directory.set_entry_type(tar::EntryType::Directory);
        directory.set_size(0);
        directory.set_mode(0o755);
        builder.append_data(&mut directory, "demo-main/lib/", &b""[..]).unwrap();
        let mut link = tar::Header::new_gnu();
        link.set_entry_type(tar::EntryType::Symlink);
        link.set_size(0);
        link.set_mode(0o777);
        builder.append_link(&mut link, "demo-main/link.js", "lib/run.js").unwrap();
        let mut file = tar::Header::new_gnu();
        file.set_size(5);
        file.set_mode(0o755);
        builder.append_data(&mut file, "demo-main/lib/run.js", &b"run()"[..]).unwrap();
        builder.finish().unwrap();
    }
    let bytes = encoder.finish().unwrap();
    let integrity = Integrity::of(Algorithm::Sha512, &bytes);
    let ingest = store
        .ingest("demo", &Version::new(1, 2, 3), &integrity, &bytes)
        .unwrap();
    assert_eq!(ingest.writes.len(), 1);
    assert_eq!(ingest.writes[0].contents, b"run()".to_vec());
    let index = ingest.end.unwrap();
    assert_eq!(index.name, "demo");
    assert_eq!(index.version, Version::new(1, 2, 3));
    for spelled in ["lib/run.js", "./lib/run.js"] {
        let file = index.file(spelled).unwrap();
        assert_eq!(file.hash, ContentHash::of(b"run()"));
        assert_eq!(file.size, 5);
        assert!(file.executable);
    }
    assert!(index.file("lib").is_none());
    assert!(index.file("link.js").is_none());
}

#[test]
fn the_last_member_at_a_path_is_the_file() {
    let mut first = member("package/a.js", b"one");
    first.mode = Some(0o755);
    let archive = Archive {
        members: vec![first, member("package/b.js", b"two"), member("package/a.js", b"three")],
        failure: None,
    };
    let filed = file_archive("demo", &Version::new(1, 0, 0), "/cache/tmp", &archive);
    let index = filed.end.unwrap();
    let file = index.file("a.js").unwrap();
    assert_eq!(file.hash, ContentHash::of(b"three"));
    assert!(!file.executable);
    assert_eq!(index.file("b.js").unwrap().hash, ContentHash::of(b"two"));
    assert_eq!(filed.writes.len(), 3);
}

#[test]
fn published_packages_are_read_back() {
    let package = opal::fixtures::Package::new("demo", "1.2.3")
        .file("lib/index.js", "exports.x = 1;\n")
        .executable("cli.js", "#!/usr/bin/env node\n");
    let bytes = package.tarball(b"{\"name\":\"demo\"}".to_vec()).unwrap();
    assert_eq!(bytes, package.tarball(b"{\"name\":\"demo\"}".to_vec()).unwrap());
    assert_ne!(bytes, package.tarball(b"{}".to_vec()).unwrap());

    let mut store = Shelf::new();
    let integrity = Integrity::of(Algorithm::Sha512, &bytes);
    let hash = store
        .ingest("demo", &Version::new(1, 2, 3), &integrity, &bytes)
        .unwrap();
    let index = store.read_index(&hash);
    let names: Vec<&str> = (0..index.files.len())
        .map(|at| index.files.key_at(at).as_str())
        .collect();
    assert_eq!(names, vec!["cli.js", "index.js", "lib/index.js", "package.json"]);
    assert!(index.file("cli.js").unwrap().executable);
    assert!(!index.file("package.json").unwrap().executable);
    assert_eq!(index.file("package.json").unwrap().size, 15);
    assert_eq!(
        store.read(&index.file("lib/index.js").unwrap().hash),
        b"exports.x = 1;\n"
    );
}

#[test]
fn files_that_climb_out_cannot_be_packed() {
    let package = opal::fixtures::Package::new("demo", "1.0.0").file("../up.js", "x");
    assert!(package.tarball(b"{}".to_vec()).is_err());
}
