use syncodex::digest::{fingerprint, Fingerprint};
use syncodex::inject::{
    approve_writes, backup_name, go_ahead, journal_record, plan_entry, write_action, Change, Go,
    InjectError, Step, WriteAction,
};
use syncodex::json::Json;
use syncodex::manifest::{Entry, Manifest, Timestamp, FORMAT_VERSION};

fn entry(path: &str, data: &[u8]) -> Entry {
    let f = fingerprint(data);
    Entry {
        path: path.to_string(),
        size: f.size,
        sha256: f.sha256,
        modified: None,
    }
}

fn change(target: &str, before: Option<Fingerprint>, database: bool) -> Change {
    Change {
        target: target.to_string(),
        staged: "/staging/0".to_string(),
        before,
        database,
    }
}

#[test]
fn plan_keeps_skips_refuses_and_stages() {
    let db = entry("sqlite/state_5.sqlite", b"db");
    assert!(matches!(plan_entry(&db, true, "/h", "/d", &None, None), Ok(Step::Keep)));
    match plan_entry(&db, false, "/h", "/d", &Some(fingerprint(b"db")), None) {
        Err(InjectError::DatabaseExists(t)) => assert_eq!(t, "/d/state_5.sqlite"),
        other => panic!("{other:?}"),
    }
    match plan_entry(&db, false, "/h", "/d", &None, None) {
        Ok(Step::Stage { target, database, merge }) => {
            assert_eq!(target, "/d/state_5.sqlite");
            assert!(database && !merge);
        }
        other => panic!("{other:?}"),
    }
    let history = entry("history.jsonl", b"{}\n");
    assert!(matches!(
        plan_entry(&history, false, "/h", "/d", &Some(fingerprint(b"{}\n")), None),
        Ok(Step::Skip)
    ));
    let rollout = entry("sessions/r.jsonl", b"{}\n");
    // A rollout asks first for its compressed sibling, then decides.
    match plan_entry(&rollout, false, "/h", "/d", &None, None) {
        Ok(Step::LookAt(p)) => assert_eq!(p, "/h/sessions/r.jsonl.zst"),
        other => panic!("{other:?}"),
    }
    match plan_entry(&rollout, false, "/h", "/d", &None, Some(true)) {
        Err(InjectError::StorageConflict(t)) => assert_eq!(t, "/h/sessions/r.jsonl"),
        other => panic!("{other:?}"),
    }
    match plan_entry(&rollout, false, "/h", "/d", &Some(fingerprint(b"x\n")), Some(false)) {
        Ok(Step::Stage { target, database, merge }) => {
            assert_eq!(target, "/h/sessions/r.jsonl");
            assert!(!database && merge);
        }
        other => panic!("{other:?}"),
    }
    // An identical rollout is skipped before its sibling is asked for.
    assert!(matches!(
        plan_entry(&rollout, false, "/h", "/d", &Some(fingerprint(b"{}\n")), None),
        Ok(Step::Skip)
    ));
}

#[test]
fn nothing_is_written_unless_every_target_is_unchanged() {
    let changes = vec![
        change("/h/history.jsonl", Some(fingerprint(b"a")), false),
        change("/h/sessions/r.jsonl", None, false),
        change("/h/session_index.jsonl", Some(fingerprint(b"c")), false),
    ];
    assert_eq!(go_ahead(&changes, true), Go::DryRun);
    assert_eq!(go_ahead(&changes, false), Go::Write);
    let unchanged = vec![Some(fingerprint(b"a")), None, Some(fingerprint(b"c"))];
    assert!(approve_writes(&changes, &unchanged).is_ok());
    let created = vec![Some(fingerprint(b"a")), Some(fingerprint(b"new")), Some(fingerprint(b"x"))];
    match approve_writes(&changes, &created) {
        Err(InjectError::DestinationChanged(t)) => assert_eq!(t, "/h/sessions/r.jsonl"),
        other => panic!("{other:?}"),
    }
    let removed = vec![Some(fingerprint(b"a")), None, None];
    match approve_writes(&changes, &removed) {
        Err(InjectError::DestinationChanged(t)) => assert_eq!(t, "/h/session_index.jsonl"),
        other => panic!("{other:?}"),
    }
    assert!(approve_writes(&Vec::new(), &Vec::new()).is_ok());
}

#[test]
fn write_action_follows_the_target() {
    let db = change("/d/state_5.sqlite", Some(fingerprint(b"d")), true);
    assert_eq!(write_action(&db, true), WriteAction::Restore);
    assert_eq!(write_action(&db, false), WriteAction::Replace);
    let new_db = change("/d/state_5.sqlite", None, true);
    assert_eq!(write_action(&new_db, false), WriteAction::CreateNew);
    let merged = change("/h/history.jsonl", Some(fingerprint(b"a")), false);
    assert_eq!(write_action(&merged, true), WriteAction::Replace);
    let fresh = change("/h/sessions/r.jsonl", None, false);
    assert_eq!(write_action(&fresh, false), WriteAction::CreateNew);
}

#[test]
fn journal_records_target_backup_and_kind() {
    assert_eq!(backup_name(0), "0");
    assert_eq!(backup_name(7), "7");
    assert_eq!(backup_name(10), "10");
    assert_eq!(backup_name(4096), "4096");
    let c = change("/h/history.jsonl", Some(fingerprint(b"a")), false);
    match journal_record(&c, 12, true) {
        Json::Object(fields) => {
            assert_eq!(fields.len(), 3);
            assert_eq!(fields[0].0, "backup");
            assert!(matches!(&fields[0].1, Json::Str(b) if b == "12"));
            assert_eq!(fields[1].0, "database");
            assert!(matches!(fields[1].1, Json::Bool(false)));
            assert_eq!(fields[2].0, "target");
            assert!(matches!(&fields[2].1, Json::Str(t) if t == "/h/history.jsonl"));
        }
        other => panic!("{other:?}"),
    }
    let d = change("/d/state_5.sqlite", None, true);
    match journal_record(&d, 3, false) {
        Json::Object(fields) => {
            assert!(matches!(fields[0].1, Json::Null));
            assert!(matches!(fields[1].1, Json::Bool(true)));
        }
        other => panic!("{other:?}"),
    }
}

#[test]
fn assembled_manifest_lists_the_copied_files_in_order() {
    let paths = vec!["history.jsonl".to_string(), "sessions/r.jsonl".to_string()];
    let found = vec![fingerprint(b"h"), fingerprint(b"r\n")];
    let t = Timestamp { secs: 1_788_998_400, nanos: 5 };
    let times = vec![Some(t), None];
    let m = Manifest::assemble("/home/c".to_string(), &paths, &found, &times);
    assert_eq!(m.format_version, FORMAT_VERSION);
    assert_eq!(m.source_home.as_deref(), Some("/home/c"));
    assert_eq!(m.files.len(), 2);
    assert_eq!(m.files[0].path, "history.jsonl");
    assert_eq!(m.files[0].size, 1);
    assert_eq!(m.files[0].sha256, fingerprint(b"h").sha256);
    assert_eq!(m.files[0].modified, Some(t));
    assert_eq!(m.files[1].path, "sessions/r.jsonl");
    assert_eq!(m.files[1].size, 2);
    assert_eq!(m.files[1].modified, None);
}
