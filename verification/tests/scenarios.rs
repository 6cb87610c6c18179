//! Restore and snapshot scenarios played on the library's decisions with the files of a
//! small Codex home.
use serde_json::Value;
use syncodex::digest::fingerprint;
use syncodex::index::merge_session_index;
use syncodex::inject::{existing_target, go_ahead, plan_entry, Existing, Go, Step};
use syncodex::inventory::{inventory, EntryKind, InventoryError, WalkEntry};
use syncodex::json::{Json, JsonLine};
use syncodex::jsonl::split_lines;
use syncodex::manifest::{verify, Entry, Manifest, ManifestError, Timestamp};
use syncodex::merge::{merge_history, merge_rollout, MergeError};
use syncodex::paths::relocate;

const ROLLOUT: &str = "sessions/2026/09/10/rollout-test.jsonl";
const ROLLOUT_BYTES: &[u8] = b"{\"type\":\"session_meta\",\"payload\":{\"id\":\"example\"}}\n";
const HISTORY: &[u8] = b"{\"session_id\":\"example\",\"ts\":1,\"text\":\"hello\"}\n";
const INDEX: &[u8] =
    b"{\"id\":\"example\",\"thread_name\":\"name\",\"updated_at\":\"2026-09-10T00:00:00Z\"}\n";

fn to_json(v: Value) -> Json {
    match v {
        Value::Null => Json::Null,
        Value::Bool(b) => Json::Bool(b),
        Value::Number(n) => match (n.as_u64(), n.as_i64()) {
            (Some(u), _) => Json::UInt(u),
            (None, Some(i)) => Json::NegInt(i),
            _ => Json::Float(n.as_f64().unwrap().to_bits()),
        },
        Value::String(s) => Json::Str(s),
        Value::Array(a) => Json::Array(a.into_iter().map(to_json).collect()),
        Value::Object(m) => Json::Object(m.into_iter().map(|(k, v)| (k, to_json(v))).collect()),
    }
}

fn records(bytes: &[u8]) -> Vec<JsonLine> {
    split_lines(bytes)
        .unwrap()
        .iter()
        .map(|line| {
            let v: Value = serde_json::from_str(line).unwrap();
            JsonLine {
                text: serde_json::to_string(&v).unwrap(),
                value: to_json(v),
            }
        })
        .collect()
}

fn entry(path: &str, data: &[u8]) -> Entry {
    let f = fingerprint(data);
    Entry {
        path: path.to_string(),
        size: f.size,
        sha256: f.sha256,
        modified: Some(Timestamp {
            secs: 1_788_998_400,
            nanos: 5,
        }),
    }
}

fn home_walk() -> Vec<WalkEntry> {
    [
        ("sessions", EntryKind::Dir),
        ("sessions/2026", EntryKind::Dir),
        ("sessions/2026/09", EntryKind::Dir),
        ("sessions/2026/09/10", EntryKind::Dir),
        (ROLLOUT, EntryKind::File),
        ("archived_sessions", EntryKind::Dir),
        ("archived_sessions/rollout-old.jsonl.zst", EntryKind::File),
        ("history.jsonl", EntryKind::File),
        ("session_index.jsonl", EntryKind::File),
    ]
    .iter()
    .map(|(p, k)| WalkEntry {
        relative: p.to_string(),
        kind: *k,
    })
    .collect()
}

#[test]
fn repeat_restore_skips_identical_files_and_keeps_credentials_out() {
    // Credentials, configuration and a stray database at the root are never walked into.
    let mut walk = home_walk();
    for name in ["auth.json", "config.toml", "state_5.sqlite"] {
        walk.push(WalkEntry {
            relative: name.to_string(),
            kind: EntryKind::File,
        });
    }
    let paths = inventory(&walk).unwrap();
    assert_eq!(
        paths,
        vec![
            "archived_sessions/rollout-old.jsonl.zst",
            "history.jsonl",
            "session_index.jsonl",
            ROLLOUT,
        ]
    );
    // A second restore finds every file identical and skips it, so nothing is written.
    let e = entry(ROLLOUT, ROLLOUT_BYTES);
    assert_eq!(
        existing_target(&e, false, "/t", &Some(fingerprint(ROLLOUT_BYTES))).unwrap(),
        Existing::Identical
    );
    assert!(matches!(
        plan_entry(&e, false, "/t", "/t/sqlite", &Some(fingerprint(ROLLOUT_BYTES)), None),
        Ok(Step::Skip)
    ));
    assert_eq!(go_ahead(&Vec::new(), false), Go::NothingToDo);
    assert_eq!(go_ahead(&Vec::new(), true), Go::DryRun);
}

#[test]
fn differing_local_history_is_staged_for_merge() {
    let local = split_lines(b"local history").unwrap();
    assert_eq!(local, vec!["local history"]);
    // The line is no JSON record, so no merge of it is attempted.
    assert!(serde_json::from_str::<Value>(&local[0]).is_err());
    let e = entry("history.jsonl", HISTORY);
    assert_eq!(
        existing_target(&e, false, "/t/history.jsonl", &Some(fingerprint(b"local history")))
            .unwrap(),
        Existing::Differs
    );
    match plan_entry(&e, false, "/t", "/t/sqlite", &Some(fingerprint(b"local history")), None) {
        Ok(Step::Stage { target, database, merge }) => {
            assert_eq!(target, "/t/history.jsonl");
            assert!(!database && merge);
        }
        other => panic!("{other:?}"),
    }
}

#[test]
fn corrupted_copy_fails_its_manifest_entry() {
    let e = entry("history.jsonl", HISTORY);
    match verify(&fingerprint(b"corruption"), &e) {
        Err(ManifestError::ChecksumMismatch(p)) => assert_eq!(p, "history.jsonl"),
        other => panic!("{other:?}"),
    }
}

#[test]
fn symlinked_history_path_stops_the_inventory() {
    let mut walk = home_walk();
    walk.insert(
        1,
        WalkEntry {
            relative: "sessions/link".to_string(),
            kind: EntryKind::Symlink,
        },
    );
    assert!(matches!(inventory(&walk), Err(InventoryError::Symlink(p)) if p == "sessions/link"));
}

#[test]
fn rollout_extension_and_history_union_survive_repeated_merges() {
    let extended = format!(
        "{}{{\"type\":\"event_msg\",\"payload\":{{}}}}\n",
        String::from_utf8(ROLLOUT_BYTES.to_vec()).unwrap()
    );
    // Newer, then older, then newer again: the extended rollout stays.
    let merged = merge_rollout(ROLLOUT, ROLLOUT_BYTES, extended.as_bytes()).unwrap();
    assert_eq!(merged, extended.as_bytes());
    let merged = merge_rollout(ROLLOUT, &merged, ROLLOUT_BYTES).unwrap();
    assert_eq!(merged, extended.as_bytes());
    let new_history = b"{\"session_id\":\"example\",\"ts\":2,\"text\":\"new\"}\n";
    let once = merge_history(&records(HISTORY), &records(new_history)).unwrap();
    assert_eq!(once.lines().count(), 2);
    let again = merge_history(&records(once.as_bytes()), &records(HISTORY)).unwrap();
    assert_eq!(again, once);
    let renamed =
        b"{\"id\":\"example\",\"thread_name\":\"renamed\",\"updated_at\":\"2026-09-11T00:00:00Z\"}\n";
    let names = merge_session_index(&records(INDEX), &records(renamed)).unwrap();
    assert!(names.contains("renamed"));
    let names = merge_session_index(&records(names.as_bytes()), &records(INDEX)).unwrap();
    assert!(names.contains("renamed"));
    assert_eq!(names.lines().count(), 1);
}

#[test]
fn divergent_rollout_and_equal_time_names_conflict() {
    assert!(matches!(
        merge_rollout(ROLLOUT, b"{\"type\":\"different\"}\n", ROLLOUT_BYTES),
        Err(MergeError::DivergentRollout)
    ));
    let other =
        b"{\"id\":\"example\",\"thread_name\":\"other\",\"updated_at\":\"2026-09-10T00:00:00Z\"}\n";
    assert!(matches!(
        merge_session_index(&records(other), &records(INDEX)),
        Err(MergeError::ConflictingNames(id)) if id == "example"
    ));
}

#[test]
fn rollout_paths_move_to_the_new_home() {
    assert_eq!(
        relocate(&format!("/tmp/x/source/{ROLLOUT}"), "/tmp/x/source", "/tmp/x/target").unwrap(),
        format!("/tmp/x/target/{ROLLOUT}")
    );
}

#[test]
fn recorded_modified_time_is_kept_in_the_manifest() {
    let mut m = Manifest::for_home("/tmp/x/source".to_string());
    m.record(
        "history.jsonl".to_string(),
        fingerprint(HISTORY),
        Some(Timestamp {
            secs: 1_788_998_400,
            nanos: 5,
        }),
    );
    assert_eq!(m.format_version, 2);
    assert_eq!(
        m.files[0].modified,
        Some(Timestamp {
            secs: 1_788_998_400,
            nanos: 5
        })
    );
}
