use std::collections::BTreeMap;

use opal::cas::gc::{collect, Candidate, GcOptions, GcReport, Live};
use opal::cas::{
    audit, check_content, check_layout_version, classify_object, layout_version_text,
    open_failure, scan, AuditReport, Cas, CasError, Found, Placement, Put, Seen,
};
use opal::fault::FaultPoint;
use opal::hash::ContentHash;
use opal::native::NativePath;
use opal::sorted::SortedMap;

/// A store whose files are kept in memory.
struct Shelf {
    cas: Cas,
    objects: BTreeMap<String, Vec<u8>>,
    temp_files: Vec<u128>,
}

fn store() -> Shelf {
    Shelf { cas: Cas::at("/store"), objects: BTreeMap::new(), temp_files: Vec::new() }
}

impl Shelf {
    fn put(&mut self, bytes: &[u8]) -> Result<ContentHash, CasError> {
        let mut put = Put::new();
        for chunk in bytes.chunks(4096) {
            put.chunk(chunk);
        }
        let stored = self.objects.contains_key(&put.target(&self.cas));
        match put.place(&self.cas, &ContentHash::of(bytes), stored)? {
            Placement::Rename { hash, target, checkpoint } => {
                assert_eq!(checkpoint, FaultPoint::CasBeforeRename);
                self.objects.insert(target, bytes.to_vec());
                Ok(hash)
            }
            Placement::Drop { hash } => Ok(hash),
        }
    }

    fn contains(&self, hash: &ContentHash) -> bool {
        self.objects.contains_key(&self.cas.object_path(hash))
    }

    fn read(&self, hash: &ContentHash) -> Result<Vec<u8>, CasError> {
        let path = self.cas.object_path(hash);
        match self.objects.get(&path) {
            Some(bytes) => Ok(bytes.clone()),
            None => Err(open_failure(hash, &path, true, "not found")),
        }
    }

    fn verify(&self, hash: &ContentHash) -> Result<(), CasError> {
        check_content(hash, &ContentHash::of(&self.read(hash)?))
    }

    fn found(&self) -> Vec<Found> {
        self.objects
            .keys()
            .map(|path| {
                let parts: Vec<&str> = path.rsplit('/').collect();
                Found::Entry {
                    path: NativePath { path: path.clone() },
                    name: Some(parts[0].to_string()),
                    outer: parts[2].to_string(),
                    inner: parts[1].to_string(),
                    is_file: true,
                }
            })
            .collect()
    }

    fn object_hashes(&self) -> Vec<ContentHash> {
        scan(&self.found()).hashes
    }

    fn audit(&self) -> AuditReport {
        let scanned = scan(&self.found());
        let seen = scanned
            .hashes
            .iter()
            .map(|hash| {
                let bytes = &self.objects[&self.cas.object_path(hash)];
                let content = Seen::Content {
                    size: bytes.len() as u64,
                    actual: ContentHash::of(bytes),
                };
                (*hash, content)
            })
            .collect();
        audit(&seen, scanned.strays, self.temp_files.len())
    }

    fn collect(&mut self, live: &Live, options: &GcOptions) -> GcReport {
        let candidates = self
            .object_hashes()
            .into_iter()
            .map(|hash| {
                let bytes = &self.objects[&self.cas.object_path(&hash)];
                Candidate {
                    hash,
                    mismatched: ContentHash::of(bytes) != hash,
                    size: bytes.len() as u64,
                }
            })
            .collect();
        let sweep = collect(&candidates, live, &self.temp_files, options);
        for hash in &sweep.objects {
            self.objects.remove(&self.cas.object_path(hash));
        }
        for at in sweep.temp_files.iter().rev() {
            self.temp_files.remove(*at);
        }
        sweep.report
    }
}

fn live(hashes: &[ContentHash]) -> Live {
    let mut set = SortedMap::new();
    for hash in hashes {
        set.insert(*hash, ());
    }
    set
}

#[test]
fn test_put_then_read_round_trips() {
    let mut cas = store();
    let hash = cas.put(b"export default 1;").unwrap();
    assert_eq!(hash, ContentHash::of(b"export default 1;"));
    assert!(cas.contains(&hash));
    assert_eq!(cas.read(&hash).unwrap(), b"export default 1;");
    cas.verify(&hash).unwrap();
}

#[test]
fn test_identical_content_is_stored_once() {
    let mut cas = store();
    let first = cas.put(b"same").unwrap();
    let second = cas.put(b"same").unwrap();
    assert_eq!(first, second);
    assert_eq!(cas.object_hashes().len(), 1);
    assert!(cas.temp_files.is_empty());
}

#[test]
fn test_object_is_sharded_by_key_prefix() {
    let mut cas = store();
    let hash = cas.put(b"shard me").unwrap();
    let hex = hash.to_hex();
    let path = cas.cas.object_path(&hash);
    assert!(path.ends_with(&format!("{}/{}/{hex}", &hex[0..2], &hex[2..4])));
    assert!(cas.objects.contains_key(&path));
}

#[test]
fn test_missing_object_reports_missing() {
    let cas = store();
    let absent = ContentHash::of(b"never stored");
    assert!(matches!(cas.read(&absent), Err(CasError::Missing { .. })));
    assert!(matches!(cas.verify(&absent), Err(CasError::Missing { .. })));
}

#[test]
fn test_empty_input_is_a_valid_object() {
    let mut cas = store();
    let hash = cas.put(b"").unwrap();
    assert_eq!(cas.read(&hash).unwrap(), Vec::<u8>::new());
    assert!(cas.audit().is_clean());
}

#[test]
fn test_audit_flags_tampered_object() {
    let mut cas = store();
    let hash = cas.put(b"honest content").unwrap();
    let path = cas.cas.object_path(&hash);
    cas.objects.insert(path, b"tampered".to_vec());

    let report = cas.audit();
    assert!(!report.is_clean());
    assert_eq!(report.corrupt, vec![hash]);
    assert!(matches!(cas.verify(&hash), Err(CasError::Corrupt { .. })));
}

#[test]
fn test_audit_flags_misfiled_object() {
    let mut cas = store();
    let hash = cas.put(b"filed wrong").unwrap();
    let hex = hash.to_hex();
    let wrong = format!("{}/00/00/{hex}", cas.cas.objects());
    cas.objects.insert(wrong, b"filed wrong".to_vec());

    let report = cas.audit();
    assert!(!report.is_clean());
    assert_eq!(report.stray_files.len(), 1);
}

#[test]
fn test_layout_version_mismatch_is_refused() {
    let cas = Cas::at("/store");
    check_layout_version(&cas.version_path(), &layout_version_text()).unwrap();
    assert!(matches!(
        check_layout_version(&cas.version_path(), "999\n"),
        Err(CasError::LayoutVersion { .. })
    ));
}

#[test]
fn test_sweeps_unreferenced_objects_only() {
    let mut cas = store();
    let keep = cas.put(b"still referenced").unwrap();
    let drop = cas.put(b"nothing points here").unwrap();

    let report = cas.collect(&live(&[keep]), &GcOptions::default());

    assert_eq!(report.objects_scanned, 2);
    assert_eq!(report.objects_removed, 1);
    assert!(cas.contains(&keep));
    assert!(!cas.contains(&drop));
}

#[test]
fn test_dry_run_removes_nothing() {
    let mut cas = store();
    let hash = cas.put(b"unreferenced").unwrap();

    let options = GcOptions { dry_run: true, ..GcOptions::default() };
    let report = cas.collect(&live(&[]), &options);

    assert_eq!(report.objects_removed, 1);
    assert!(cas.contains(&hash));
}

#[test]
fn test_keeps_recent_temp_files_and_sweeps_old_ones() {
    let mut cas = store();
    cas.temp_files.push(5_000_000);

    let keep_all = cas.collect(&live(&[]), &GcOptions::default());
    assert_eq!(keep_all.temp_files_kept, 1);
    assert_eq!(cas.temp_files.len(), 1);

    let sweep = GcOptions { temp_max_age: 0, ..GcOptions::default() };
    let swept = cas.collect(&live(&[]), &sweep);
    assert_eq!(swept.temp_files_removed, 1);
    assert!(cas.temp_files.is_empty());
}

#[test]
fn test_verify_removes_corrupt_objects_even_when_live() {
    let mut cas = store();
    let hash = cas.put(b"content").unwrap();
    let path = cas.cas.object_path(&hash);
    cas.objects.insert(path, b"corrupted from outside".to_vec());

    let options = GcOptions { verify: true, ..GcOptions::default() };
    let report = cas.collect(&live(&[hash]), &options);

    assert_eq!(report.corrupt_removed, 1);
    assert!(!cas.contains(&hash));
    assert!(cas.audit().is_clean());
}

#[test]
fn corrupt_live_objects_stay_without_verification() {
    let mut cas = store();
    let hash = cas.put(b"content").unwrap();
    let path = cas.cas.object_path(&hash);
    cas.objects.insert(path, b"corrupted".to_vec());
    let report = cas.collect(&live(&[hash]), &GcOptions::default());
    assert_eq!(report, GcReport { objects_scanned: 1, ..GcReport::default() });
}

#[test]
fn what_was_reclaimed_is_summed() {
    let mut cas = store();
    cas.put(b"12345").unwrap();
    cas.put(b"1234567").unwrap();
    let report = cas.collect(&live(&[]), &GcOptions::default());
    assert_eq!(report.bytes_reclaimed, 12);
    assert_eq!(report.objects_removed, 2);
    assert!(cas.objects.is_empty());
}

#[test]
fn a_torn_write_is_never_placed() {
    let cas = Cas::at("/store");
    let mut put = Put::new();
    assert_eq!(put.chunk(b"first "), Some(FaultPoint::CasMidWrite));
    assert_eq!(put.chunk(b"second"), None);
    assert_eq!(put.key(), ContentHash::of(b"first second"));
    let torn = ContentHash::of(b"first ");
    let error = put.place(&cas, &torn, false).unwrap_err();
    assert!(matches!(error, CasError::WriteVerification { .. }));
    assert!(error.to_string().contains(&torn.to_hex()));
}

#[test]
fn different_contents_have_different_paths() {
    let cas = Cas::at("/store");
    assert_ne!(
        cas.object_path(&ContentHash::of(b"a")),
        cas.object_path(&ContentHash::of(b"b"))
    );
    assert_eq!(cas.root(), "/store");
    assert_eq!(cas.objects(), "/store/objects");
    assert!(cas.temp_dir().starts_with("/store/"));
}

#[test]
fn names_that_are_no_keys_are_strays() {
    let hex = ContentHash::of(b"x").to_hex();
    assert_eq!(
        classify_object(&hex, &hex[0..2], &hex[2..4], true),
        Some(ContentHash::of(b"x"))
    );
    assert_eq!(classify_object(&hex, &hex[0..2], &hex[2..4], false), None);
    assert_eq!(classify_object("readme", "re", "ad", true), None);
    let strays = scan(&vec![Found::Stray(NativePath { path: "/store/objects/x".into() })]);
    assert_eq!(strays.strays.len(), 1);
    assert!(strays.hashes.is_empty());
}

#[test]
fn unreadable_objects_are_reported() {
    let hash = ContentHash::of(b"x");
    let report = audit(
        &vec![(hash, Seen::Nothing { message: "denied".to_string() })],
        Vec::new(),
        0,
    );
    assert!(!report.is_clean());
    assert_eq!(report.unreadable, vec![(hash, "denied".to_string())]);
    assert!(matches!(
        open_failure(&hash, "/p", false, "denied"),
        CasError::Io { .. }
    ));
}

#[test]
fn audits_name_what_is_wrong_and_nothing_else() {
    let good = ContentHash::of(b"good");
    let bad = ContentHash::of(b"bad");
    let dark = ContentHash::of(b"dark");
    let report = audit(
        &vec![
            (good, Seen::Content { size: 4, actual: good }),
            (bad, Seen::Content { size: 3, actual: good }),
            (dark, Seen::Size { size: 7, message: "denied".to_string() }),
        ],
        Vec::new(),
        2,
    );
    assert_eq!((report.objects, report.bytes, report.temp_files), (3, 14, 2));
    assert_eq!(report.corrupt, vec![bad]);
    assert_eq!(report.unreadable, vec![(dark, "denied".to_string())]);
}

#[test]
fn scans_count_everything_once() {
    let hex = ContentHash::of(b"x").to_hex();
    let entry = |name: &str, is_file: bool| Found::Entry {
        path: NativePath { path: format!("/store/objects/{name}") },
        name: Some(name.to_string()),
        outer: hex[0..2].to_string(),
        inner: hex[2..4].to_string(),
        is_file,
    };
    let stray = Found::Stray(NativePath { path: "/store/objects/a".into() });
    let found = scan(&vec![entry(&hex, true), stray, entry(&hex, false), entry("zz", true)]);
    assert_eq!(found.hashes, vec![ContentHash::of(b"x")]);
    assert_eq!(found.strays.len(), 3);
    let strays: Vec<&str> = found.strays.iter().map(|stray| stray.path.as_str()).collect();
    let misfiled = format!("/store/objects/{hex}");
    assert_eq!(strays, vec![misfiled.as_str(), "/store/objects/a", "/store/objects/zz"]);
}

#[test]
fn audits_cover_what_a_scan_found() {
    let contents: [&[u8]; 3] = [b"one", b"two", b"three"];
    let entries: Vec<Found> = contents
        .iter()
        .map(|content| {
            let hex = ContentHash::of(content).to_hex();
            Found::Entry {
                path: NativePath { path: format!("/store/objects/{hex}") },
                name: Some(hex.clone()),
                outer: hex[0..2].to_string(),
                inner: hex[2..4].to_string(),
                is_file: true,
            }
        })
        .collect();
    let found = scan(&entries);
    assert_eq!(found.hashes.len(), 3);
    let other = ContentHash::of(b"other");
    let seen = |tampered: usize| {
        found
            .hashes
            .iter()
            .enumerate()
            .map(|(at, hash)| {
                let actual = if at < tampered { other } else { *hash };
                (*hash, Seen::Content { size: 10, actual })
            })
            .collect::<Vec<_>>()
    };
    let clean = audit(&seen(0), Vec::new(), 1);
    assert_eq!((clean.objects, clean.bytes), (3, 30));
    assert!(clean.is_clean());
    let tampered = audit(&seen(2), Vec::new(), 0);
    assert_eq!(tampered.corrupt, vec![found.hashes[0], found.hashes[1]]);
    assert!(tampered.corrupt[0].to_hex() < tampered.corrupt[1].to_hex());
    assert!(!tampered.is_clean());
}
