use syncodex::digest::{fingerprint, to_hex_lower, Fingerprint};
use syncodex::inventory::{inventory, EntryKind, InventoryError, WalkEntry};
use syncodex::manifest::{validate_manifest, verify, Entry, Manifest, ManifestError};
use syncodex::paths::{allowed, join_path, relocate, sibling_path, RelocateError};

#[test]
fn allowed_accepts_history_files_and_databases() {
    for path in [
        "history.jsonl",
        "session_index.jsonl",
        "sessions/2026/09/10/rollout-test.jsonl",
        "archived_sessions/rollout-old.jsonl.zst",
        "sqlite/state_5.sqlite",
        "sqlite/thread_history_1.sqlite",
    ] {
        assert!(allowed(path), "{path}");
    }
}

#[test]
fn allowed_rejects_traversal_credentials_and_other_files() {
    for path in [
        "../auth.json",
        "/tmp/auth.json",
        "sessions/../../auth.json",
        "auth.json",
        "config.toml",
        "sessions\\x.jsonl",
        "state_5.sqlite",
        "sqlite/other.sqlite",
        "sqlite/../state_5.sqlite",
        "sessions//x.jsonl",
        "sessions/./x.jsonl",
        "sessions/x.txt",
        "sessions/a:b.jsonl",
        "/sessions/x.jsonl",
        "sessions/x.jsonl/",
        "",
        "history.jsonl.zst",
    ] {
        assert!(!allowed(path), "{path}");
    }
}

#[test]
fn join_inserts_one_separator() {
    assert_eq!(join_path("/h", "a/b.jsonl"), "/h/a/b.jsonl");
    assert_eq!(join_path("/h/", "a"), "/h/a");
    assert_eq!(join_path("", "a"), "a");
}

#[test]
fn sibling_switches_compression_suffix() {
    assert_eq!(sibling_path("/h/sessions/r.jsonl"), "/h/sessions/r.jsonl.zst");
    assert_eq!(sibling_path("/h/sessions/r.jsonl.zst"), "/h/sessions/r.jsonl");
}

#[test]
fn relocate_moves_rollouts_into_the_new_home() {
    assert_eq!(
        relocate("/src/home/sessions/2026/r.jsonl", "/src/home", "/new/home").unwrap(),
        "/new/home/sessions/2026/r.jsonl"
    );
    assert!(matches!(
        relocate("/elsewhere/sessions/r.jsonl", "/src/home", "/new"),
        Err(RelocateError::OutsideSourceHome)
    ));
    assert!(matches!(
        relocate("/src/home/sqlite/state_5.sqlite", "/src/home", "/new"),
        Err(RelocateError::UnsupportedPath)
    ));
    assert!(matches!(
        relocate("/src/home/auth.json", "/src/home", "/new"),
        Err(RelocateError::UnsupportedPath)
    ));
}

#[test]
fn fingerprint_is_size_and_lower_hex_sha256() {
    let f = fingerprint(b"abc");
    assert_eq!(f.size, 3);
    assert_eq!(
        f.sha256,
        "ba7816bf8f01cfea414140de5dae2223b00361a396177a9cb410ff61f20015ad"
    );
    let e = fingerprint(b"");
    assert_eq!(e.size, 0);
    assert_eq!(
        e.sha256,
        "e3b0c44298fc1c149afbf4c8996fb92427ae41e4649b934ca495991b7852b855"
    );
}

#[test]
fn hex_has_two_digits_per_byte() {
    assert_eq!(to_hex_lower(&[10, 20, 30]), "0a141e");
    assert_eq!(to_hex_lower(&[0, 255]), "00ff");
    assert_eq!(to_hex_lower(&[]), "");
}

fn entry(path: &str, data: &[u8]) -> Entry {
    let f = fingerprint(data);
    Entry {
        path: path.to_string(),
        size: f.size,
        sha256: f.sha256,
        modified: None,
    }
}

#[test]
fn recorded_entry_verifies_and_corruption_does_not() {
    let e = entry("history.jsonl", b"{}\n");
    assert!(verify(&fingerprint(b"{}\n"), &e).is_ok());
    match verify(&fingerprint(b"corruption"), &e) {
        Err(ManifestError::ChecksumMismatch(p)) => assert_eq!(p, "history.jsonl"),
        other => panic!("{other:?}"),
    }
    let same_size = Fingerprint {
        size: e.size,
        sha256: "0".repeat(64),
    };
    assert!(verify(&same_size, &e).is_err());
}

fn manifest(version: u32, paths: &[&str]) -> Manifest {
    let mut m = Manifest::for_home("/src/home".to_string());
    m.format_version = version;
    for p in paths {
        m.files.push(entry(p, b"x"));
    }
    m
}

#[test]
fn manifest_accepts_known_versions_and_distinct_allowed_paths() {
    assert!(validate_manifest(&manifest(2, &["history.jsonl", "sqlite/state_5.sqlite"])).is_ok());
    assert!(validate_manifest(&manifest(1, &["history.jsonl"])).is_ok());
    assert!(validate_manifest(&manifest(2, &[])).is_ok());
}

#[test]
fn validate_manifest_rejects_bad_paths_duplicates_and_versions() {
    for path in [
        "../auth.json",
        "/tmp/auth.json",
        "sessions/../../auth.json",
        "auth.json",
        "sessions\\x.jsonl",
    ] {
        match validate_manifest(&manifest(2, &[path, "history.jsonl"])) {
            Err(ManifestError::UnsupportedPath(p)) => assert_eq!(p, path),
            other => panic!("{other:?}"),
        }
    }
    match validate_manifest(&manifest(2, &["history.jsonl", "history.jsonl"])) {
        Err(ManifestError::DuplicatePath(p)) => assert_eq!(p, "history.jsonl"),
        other => panic!("{other:?}"),
    }
    assert!(matches!(
        validate_manifest(&manifest(99, &["history.jsonl"])),
        Err(ManifestError::UnsupportedVersion)
    ));
    // The first failing entry is reported.
    match validate_manifest(&manifest(2, &["a.jsonl", "history.jsonl", "history.jsonl"])) {
        Err(ManifestError::UnsupportedPath(p)) => assert_eq!(p, "a.jsonl"),
        other => panic!("{other:?}"),
    }
}

fn walk(items: &[(&str, EntryKind)]) -> Vec<WalkEntry> {
    items
        .iter()
        .map(|(p, k)| WalkEntry {
            relative: p.to_string(),
            kind: *k,
        })
        .collect()
}

#[test]
fn inventory_selects_history_files_sorted() {
    let found = inventory(&walk(&[
        ("sessions", EntryKind::Dir),
        ("sessions/2026/b.jsonl", EntryKind::File),
        ("sessions/2026/a.jsonl.zst", EntryKind::File),
        ("sessions/notes.txt", EntryKind::File),
        ("archived_sessions\\old.jsonl", EntryKind::File),
        ("history.jsonl", EntryKind::File),
        ("session_index.jsonl", EntryKind::File),
    ]))
    .unwrap();
    assert_eq!(
        found,
        vec![
            "archived_sessions/old.jsonl",
            "history.jsonl",
            "session_index.jsonl",
            "sessions/2026/a.jsonl.zst",
            "sessions/2026/b.jsonl",
        ]
    );
}

#[test]
fn inventory_rejects_symlinks_and_special_history_files() {
    match inventory(&walk(&[
        ("sessions/a.jsonl", EntryKind::File),
        ("sessions/link", EntryKind::Symlink),
    ])) {
        Err(InventoryError::Symlink(p)) => assert_eq!(p, "sessions/link"),
        other => panic!("{other:?}"),
    }
    match inventory(&walk(&[("history.jsonl", EntryKind::Other)])) {
        Err(InventoryError::NotRegularFile(p)) => assert_eq!(p, "history.jsonl"),
        other => panic!("{other:?}"),
    }
    // Something that is no history path is passed over whatever it is.
    assert_eq!(
        inventory(&walk(&[("sessions/fifo", EntryKind::Other)])).unwrap(),
        Vec::<String>::new()
    );
}

#[test]
fn history_roots_are_walked_in_order() {
    assert_eq!(
        syncodex::inventory::history_roots(),
        vec!["sessions", "archived_sessions", "history.jsonl", "session_index.jsonl"]
    );
}
